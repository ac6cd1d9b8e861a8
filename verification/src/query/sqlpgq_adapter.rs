//! SQL/PGQ adapter seam for lowering PostgreSQL-owned graph patterns.
//!
//! This module intentionally does not parse SQL/PGQ text. PostgreSQL owns SQL
//! parsing and SQL/PGQ graph-table semantics; the adapter accepts a typed pattern
//! shape once a stable PostgreSQL hook or catalog mapping can supply one.
use vstd::prelude::*;

use crate::gql::ast::{
    self, AggregateArg, Direction, Ident, MatchClause, NodePat, Pattern, Query, RelPat,
    ReturnClause, ReturnExpr, ReturnItem, SortItem, SortKey, Statement, VarLen, WithClause,
};
use crate::gql::errors::{self, GqlError, GqlErrorView, GqlResult, Span};
use crate::query::catalog_snapshot::CatalogSnapshot;
use crate::query::logical_plan::LogicalStatement;
use crate::query::semantics::{self, bind_statement};
use crate::text::owned;

verus! {

/// One row in the SQL/PGQ compatibility matrix.
#[derive(Debug, Clone, Copy, PartialEq, Eq)]
pub struct SqlPgqCompatibilityRow {
    /// SQL/PGQ feature area.
    pub feature: &'static str,
    /// Current adapter status.
    pub status: &'static str,
    /// How the feature maps into the shared plans, or why it is rejected.
    pub notes: &'static str,
}

/// What a compatibility row says.
pub struct CompatibilityView {
    pub feature: Seq<char>,
    pub status: Seq<char>,
    pub notes: Seq<char>,
}

impl View for SqlPgqCompatibilityRow {
    type V = CompatibilityView;

    open spec fn view(&self) -> CompatibilityView {
        CompatibilityView {
            feature: self.feature@,
            status: self.status@,
            notes: self.notes@,
        }
    }
}

/// Compatibility matrix for the current typed SQL/PGQ adapter seam.
pub open spec fn matrix_rows() -> Seq<CompatibilityView> {
    seq![
        CompatibilityView {
            feature: "node pattern"@,
            status: "supported"@,
            notes: "typed adapter lowers a labeled node pattern into the shared node-scan IR"@,
        },
        CompatibilityView {
            feature: "single relationship pattern"@,
            status: "supported"@,
            notes: "typed adapter lowers a single labeled relationship pattern into the shared read IR"@,
        },
        CompatibilityView {
            feature: "optional relationship pattern"@,
            status: "supported"@,
            notes: "typed adapter maps optional patterns to the same null-extension plan used by GQL"@,
        },
        CompatibilityView {
            feature: "projection and ordering"@,
            status: "supported"@,
            notes: "node variables, relationship variables, properties, path functions, DISTINCT, ORDER BY, SKIP, and LIMIT map through shared binding"@,
        },
        CompatibilityView {
            feature: "aggregates"@,
            status: "supported"@,
            notes: "RETURN aggregates map to the shared aggregate IR when the typed hook supplies aggregate expressions"@,
        },
        CompatibilityView {
            feature: "predicates"@,
            status: "deferred"@,
            notes: "typed predicate lowering is intentionally absent until PostgreSQL hook semantics are stable"@,
        },
        CompatibilityView {
            feature: "GRAPH_TABLE SQL text"@,
            status: "not a pgGraph parser"@,
            notes: "PostgreSQL remains responsible for SQL parsing; pgGraph accepts only typed hook output"@,
        },
        CompatibilityView {
            feature: "SQL/PGQ DDL"@,
            status: "rejected"@,
            notes: "CREATE PROPERTY GRAPH and related DDL remain PostgreSQL catalog features, not pgGraph DDL"@,
        },
        CompatibilityView {
            feature: "multi-pattern joins"@,
            status: "deferred"@,
            notes: "requires the later multi-stage row-stream join planner before adapter exposure"@,
        },
    ]
}

/// Compatibility matrix for the current typed SQL/PGQ adapter seam.
pub fn compatibility_matrix() -> (rows: Vec<SqlPgqCompatibilityRow>)
    ensures
        crate::views::views(rows@) == matrix_rows(),
{
    let mut rows: Vec<SqlPgqCompatibilityRow> = Vec::new();
    rows.push(
        SqlPgqCompatibilityRow {
            feature: "node pattern",
            status: "supported",
            notes: "typed adapter lowers a labeled node pattern into the shared node-scan IR",
        },
    );
    rows.push(
        SqlPgqCompatibilityRow {
            feature: "single relationship pattern",
            status: "supported",
            notes: "typed adapter lowers a single labeled relationship pattern into the shared read IR",
        },
    );
    rows.push(
        SqlPgqCompatibilityRow {
            feature: "optional relationship pattern",
            status: "supported",
            notes: "typed adapter maps optional patterns to the same null-extension plan used by GQL",
        },
    );
    rows.push(
        SqlPgqCompatibilityRow {
            feature: "projection and ordering",
            status: "supported",
            notes: "node variables, relationship variables, properties, path functions, DISTINCT, ORDER BY, SKIP, and LIMIT map through shared binding",
        },
    );
    rows.push(
        SqlPgqCompatibilityRow {
            feature: "aggregates",
            status: "supported",
            notes: "RETURN aggregates map to the shared aggregate IR when the typed hook supplies aggregate expressions",
        },
    );
    rows.push(
        SqlPgqCompatibilityRow {
            feature: "predicates",
            status: "deferred",
            notes: "typed predicate lowering is intentionally absent until PostgreSQL hook semantics are stable",
        },
    );
    rows.push(
        SqlPgqCompatibilityRow {
            feature: "GRAPH_TABLE SQL text",
            status: "not a pgGraph parser",
            notes: "PostgreSQL remains responsible for SQL parsing; pgGraph accepts only typed hook output",
        },
    );
    rows.push(
        SqlPgqCompatibilityRow {
            feature: "SQL/PGQ DDL",
            status: "rejected",
            notes: "CREATE PROPERTY GRAPH and related DDL remain PostgreSQL catalog features, not pgGraph DDL",
        },
    );
    rows.push(
        SqlPgqCompatibilityRow {
            feature: "multi-pattern joins",
            status: "deferred",
            notes: "requires the later multi-stage row-stream join planner before adapter exposure",
        },
    );
    assert(crate::views::views(rows@) =~= matrix_rows());
    rows
}

/// Direction of a typed SQL/PGQ relationship pattern.
#[derive(Debug, Clone, Copy, PartialEq, Eq, Structural)]
pub enum SqlPgqDirection {
    /// Source to target.
    Out,
    /// Target to source.
    In,
    /// Either direction.
    Undirected,
}

/// Typed SQL/PGQ node pattern supplied by PostgreSQL-owned parsing.
#[derive(Debug, Clone, PartialEq, Eq)]
pub struct SqlPgqNodePattern {
    /// Variable name.
    pub var: String,
    /// Registered label/table name.
    pub label: String,
}

/// Typed SQL/PGQ relationship pattern supplied by PostgreSQL-owned parsing.
#[derive(Debug, Clone, PartialEq, Eq)]
pub struct SqlPgqRelationshipPattern {
    /// Optional relationship variable name.
    pub var: Option<String>,
    /// Registered relationship type.
    pub rel_type: String,
    /// Relationship direction.
    pub direction: SqlPgqDirection,
    /// Optional bounded hop range.
    pub hops: Option<(u32, u32)>,
}

/// Return expression from a typed SQL/PGQ projection list.
#[derive(Debug, Clone, PartialEq, Eq)]
pub enum SqlPgqReturnExpr {
    /// Return a bound variable.
    Var(String),
    /// Return a node property.
    Property { var: String, property: String },
    /// Return one of the supported path functions over a relationship variable.
    PathFunction { name: String, arg: String },
    /// Return an aggregate expression.
    Aggregate { func: SqlPgqAggregateFunc, distinct: bool, arg: SqlPgqAggregateArg },
}

/// Supported SQL/PGQ aggregate functions.
#[derive(Debug, Clone, Copy, PartialEq, Eq, Structural)]
pub enum SqlPgqAggregateFunc {
    /// `count`.
    Count,
    /// `sum`.
    Sum,
    /// `avg`.
    Avg,
    /// `min`.
    Min,
    /// `max`.
    Max,
    /// `collect`.
    Collect,
}

/// Aggregate argument from a typed SQL/PGQ projection list.
#[derive(Debug, Clone, PartialEq, Eq)]
pub enum SqlPgqAggregateArg {
    /// `*`.
    All,
    /// Bound variable.
    Var(String),
    /// Node property.
    Property { var: String, property: String },
}

/// One typed SQL/PGQ return item.
#[derive(Debug, Clone, PartialEq, Eq)]
pub struct SqlPgqReturnItem {
    /// Return expression.
    pub expr: SqlPgqReturnExpr,
    /// Optional alias.
    pub alias: Option<String>,
}

/// Sort key from a typed SQL/PGQ query.
#[derive(Debug, Clone, PartialEq, Eq)]
pub enum SqlPgqSortKey {
    /// Sort by output alias.
    Alias(String),
    /// Sort by a node property.
    Property { var: String, property: String },
}

/// One typed SQL/PGQ sort item.
#[derive(Debug, Clone, PartialEq, Eq)]
pub struct SqlPgqSortItem {
    /// Sort key.
    pub key: SqlPgqSortKey,
    /// Descending sort.
    pub desc: bool,
}

/// Typed read pattern produced by a future PostgreSQL SQL/PGQ hook.
#[derive(Debug, Clone, PartialEq, Eq)]
pub struct SqlPgqRead {
    /// Source node pattern.
    pub source: SqlPgqNodePattern,
    /// Optional single relationship and target node.
    pub relationship: Option<(SqlPgqRelationshipPattern, SqlPgqNodePattern)>,
    /// Whether the relationship pattern is optional.
    pub optional: bool,
    /// Final projection list.
    pub returns: Vec<SqlPgqReturnItem>,
    /// Whether final rows should be distinct.
    pub distinct: bool,
    /// Sort list.
    pub order_by: Vec<SqlPgqSortItem>,
    /// Rows to skip.
    pub skip: Option<u64>,
    /// Maximum rows to return.
    pub limit: Option<u64>,
}

// ---------------------------------------------------------------------------
// Syntax trees of typed patterns
// ---------------------------------------------------------------------------

/// The place of everything that the adapter makes.
pub open spec fn nowhere() -> Span {
    Span { start: 0, end: 0 }
}

fn adapter_span() -> (span: Span)
    ensures
        span == nowhere(),
{
    Span { start: 0, end: 0 }
}

/// Whether a name of a syntax tree has a text.
pub open spec fn is_ident(ident: Ident, text: Seq<char>) -> bool {
    ident.text@ == text && ident.span == nowhere()
}

fn ident(text: &str) -> (ident: Ident)
    ensures
        is_ident(ident, text@),
{
    Ident { text: owned(text), span: adapter_span() }
}

/// Whether an optional name of a syntax tree has an optional text.
pub open spec fn is_optional_ident(ident: Option<Ident>, text: Option<String>) -> bool {
    match (ident, text) {
        (Some(ident), Some(text)) => is_ident(ident, text@),
        (None, None) => true,
        _ => false,
    }
}

fn optional_ident(text: &Option<String>) -> (name: Option<Ident>)
    ensures
        is_optional_ident(name, *text),
{
    match text {
        Some(text) => Some(ident(text.as_str())),
        None => None,
    }
}

/// Whether a node pattern is that of a typed node pattern.
pub open spec fn is_node_pat(pat: NodePat, node: SqlPgqNodePattern) -> bool {
    &&& pat.var matches Some(var) && is_ident(var, node.var@)
    &&& pat.label matches Some(label) && is_ident(label, node.label@)
    &&& pat.props@.len() == 0
    &&& pat.span == nowhere()
}

fn node_pat(node: &SqlPgqNodePattern) -> (pat: NodePat)
    ensures
        is_node_pat(pat, *node),
{
    NodePat {
        var: Some(ident(node.var.as_str())),
        label: Some(ident(node.label.as_str())),
        props: Vec::new(),
        span: adapter_span(),
    }
}

/// The syntax of a direction.
pub open spec fn gql_direction(direction: SqlPgqDirection) -> Direction {
    match direction {
        SqlPgqDirection::Out => Direction::Out,
        SqlPgqDirection::In => Direction::In,
        SqlPgqDirection::Undirected => Direction::Undirected,
    }
}

/// Why a typed relationship pattern is refused: its hop range has to start at one
/// or more and not end before it starts.
pub open spec fn hops_error(rel: SqlPgqRelationshipPattern) -> Option<GqlErrorView> {
    match rel.hops {
        Some((min, max)) => if min == 0 || max < min {
            Some(
                errors::unsupported_error(
                    nowhere(),
                    "SQL/PGQ adapter supports bounded relationship ranges with min >= 1 and max >= min"@,
                ),
            )
        } else {
            None
        },
        None => None,
    }
}

/// Whether a relationship pattern is that of a typed relationship pattern.
pub open spec fn is_rel_pat(pat: RelPat, rel: SqlPgqRelationshipPattern) -> bool {
    &&& is_optional_ident(pat.var, rel.var)
    &&& pat.rel_type matches Some(rel_type) && is_ident(rel_type, rel.rel_type@)
    &&& pat.direction == gql_direction(rel.direction)
    &&& match rel.hops {
        Some((min, max)) => pat.var_len == Some(VarLen { min, max, span: nowhere() }),
        None => pat.var_len is None,
    }
    &&& pat.props@.len() == 0
    &&& pat.span == nowhere()
}

fn rel_pat(rel: &SqlPgqRelationshipPattern) -> (result: GqlResult<RelPat>)
    ensures
        match hops_error(*rel) {
            Some(error) => result matches Err(given) && given@ == error,
            None => result matches Ok(pat) && is_rel_pat(pat, *rel),
        },
{
    let var_len: Option<VarLen> = match rel.hops {
        Some((min, max)) => {
            if min == 0 || max < min {
                return Err(
                    GqlError::unsupported(
                        adapter_span(),
                        "SQL/PGQ adapter supports bounded relationship ranges with min >= 1 and max >= min",
                    ),
                );
            }
            Some(VarLen { min, max, span: adapter_span() })
        },
        None => None,
    };
    Ok(
        RelPat {
            var: optional_ident(&rel.var),
            rel_type: Some(ident(rel.rel_type.as_str())),
            direction: match rel.direction {
                SqlPgqDirection::Out => Direction::Out,
                SqlPgqDirection::In => Direction::In,
                SqlPgqDirection::Undirected => Direction::Undirected,
            },
            var_len,
            props: Vec::new(),
            span: adapter_span(),
        },
    )
}

/// The syntax of an aggregate function.
pub open spec fn gql_aggregate(func: SqlPgqAggregateFunc) -> ast::AggregateFunc {
    match func {
        SqlPgqAggregateFunc::Count => ast::AggregateFunc::Count,
        SqlPgqAggregateFunc::Sum => ast::AggregateFunc::Sum,
        SqlPgqAggregateFunc::Avg => ast::AggregateFunc::Avg,
        SqlPgqAggregateFunc::Min => ast::AggregateFunc::Min,
        SqlPgqAggregateFunc::Max => ast::AggregateFunc::Max,
        SqlPgqAggregateFunc::Collect => ast::AggregateFunc::Collect,
    }
}

fn aggregate_func(func: SqlPgqAggregateFunc) -> (bound: ast::AggregateFunc)
    ensures
        bound == gql_aggregate(func),
{
    match func {
        SqlPgqAggregateFunc::Count => ast::AggregateFunc::Count,
        SqlPgqAggregateFunc::Sum => ast::AggregateFunc::Sum,
        SqlPgqAggregateFunc::Avg => ast::AggregateFunc::Avg,
        SqlPgqAggregateFunc::Min => ast::AggregateFunc::Min,
        SqlPgqAggregateFunc::Max => ast::AggregateFunc::Max,
        SqlPgqAggregateFunc::Collect => ast::AggregateFunc::Collect,
    }
}

fn aggregate_name(func: SqlPgqAggregateFunc) -> (name: &'static str)
    ensures
        name@ == crate::query::scope::aggregate_text(gql_aggregate(func)),
{
    crate::query::scope::aggregate_name(aggregate_func(func))
}

/// Whether an aggregate argument is that of a typed argument.
pub open spec fn is_aggregate_arg(arg: AggregateArg, typed: SqlPgqAggregateArg) -> bool {
    match typed {
        SqlPgqAggregateArg::All => arg matches AggregateArg::All { span } && span == nowhere(),
        SqlPgqAggregateArg::Var(name) => arg matches AggregateArg::Var { var, span } && is_ident(
            var,
            name@,
        ) && span == nowhere(),
        SqlPgqAggregateArg::Property { var: name, property: key } => arg matches AggregateArg::Property {
            var,
            property,
            span,
        } && is_ident(var, name@) && is_ident(property, key@) && span == nowhere(),
    }
}

fn aggregate_arg(typed: &SqlPgqAggregateArg) -> (arg: AggregateArg)
    ensures
        is_aggregate_arg(arg, *typed),
{
    match typed {
        SqlPgqAggregateArg::All => AggregateArg::All { span: adapter_span() },
        SqlPgqAggregateArg::Var(name) => AggregateArg::Var {
            var: ident(name.as_str()),
            span: adapter_span(),
        },
        SqlPgqAggregateArg::Property { var, property } => AggregateArg::Property {
            var: ident(var.as_str()),
            property: ident(property.as_str()),
            span: adapter_span(),
        },
    }
}

/// Whether a projected expression is that of a typed expression.
pub open spec fn is_return_expr(expr: ReturnExpr, typed: SqlPgqReturnExpr) -> bool {
    match typed {
        SqlPgqReturnExpr::Var(name) => expr matches ReturnExpr::Var { var, span } && is_ident(
            var,
            name@,
        ) && span == nowhere(),
        SqlPgqReturnExpr::Property { var: name, property: key } => expr matches ReturnExpr::Property {
            var,
            property,
            span,
        } && is_ident(var, name@) && is_ident(property, key@) && span == nowhere(),
        SqlPgqReturnExpr::PathFunction { name: func_name, arg } => expr matches ReturnExpr::Func {
            name,
            args,
            span,
        } && is_ident(name, func_name@) && args@.len() == 1 && is_ident(args@[0], arg@) && span
            == nowhere(),
        SqlPgqReturnExpr::Aggregate {
            func: typed_func,
            distinct: typed_distinct,
            arg: typed_arg,
        } => expr matches ReturnExpr::Aggregate { func, distinct, arg, name, span } && func
            == gql_aggregate(typed_func) && distinct == typed_distinct && is_aggregate_arg(
            arg,
            typed_arg,
        ) && is_ident(name, crate::query::scope::aggregate_text(func)) && span == nowhere(),
    }
}

/// Whether a projected item is that of a typed item.
pub open spec fn is_return_item(item: ReturnItem, typed: SqlPgqReturnItem) -> bool {
    is_return_expr(item.expr, typed.expr) && is_optional_ident(item.alias, typed.alias)
        && item.span == nowhere()
}

fn return_item(typed: &SqlPgqReturnItem) -> (item: ReturnItem)
    ensures
        is_return_item(item, *typed),
{
    let expr: ReturnExpr = match &typed.expr {
        SqlPgqReturnExpr::Var(name) => ReturnExpr::Var {
            var: ident(name.as_str()),
            span: adapter_span(),
        },
        SqlPgqReturnExpr::Property { var, property } => ReturnExpr::Property {
            var: ident(var.as_str()),
            property: ident(property.as_str()),
            span: adapter_span(),
        },
        SqlPgqReturnExpr::PathFunction { name, arg } => {
            let mut args: Vec<Ident> = Vec::new();
            args.push(ident(arg.as_str()));
            ReturnExpr::Func { name: ident(name.as_str()), args, span: adapter_span() }
        },
        SqlPgqReturnExpr::Aggregate { func, distinct, arg } => ReturnExpr::Aggregate {
            func: aggregate_func(*func),
            distinct: *distinct,
            arg: aggregate_arg(arg),
            name: ident(aggregate_name(*func)),
            span: adapter_span(),
        },
    };
    ReturnItem { expr, alias: optional_ident(&typed.alias), span: adapter_span() }
}

/// Whether a sort item is that of a typed sort item.
pub open spec fn is_sort_item(item: SortItem, typed: SqlPgqSortItem) -> bool {
    item.desc == typed.desc && item.span == nowhere() && match typed.key {
        SqlPgqSortKey::Alias(name) => item.key matches SortKey::Alias { alias, span } && is_ident(
            alias,
            name@,
        ) && span == nowhere(),
        SqlPgqSortKey::Property { var: name, property: key } => item.key matches SortKey::Property {
            var,
            property,
            span,
        } && is_ident(var, name@) && is_ident(property, key@) && span == nowhere(),
    }
}

fn sort_item(typed: &SqlPgqSortItem) -> (item: SortItem)
    ensures
        is_sort_item(item, *typed),
{
    SortItem {
        key: match &typed.key {
            SqlPgqSortKey::Alias(name) => SortKey::Alias {
                alias: ident(name.as_str()),
                span: adapter_span(),
            },
            SqlPgqSortKey::Property { var, property } => SortKey::Property {
                var: ident(var.as_str()),
                property: ident(property.as_str()),
                span: adapter_span(),
            },
        },
        desc: typed.desc,
        span: adapter_span(),
    }
}

// ---------------------------------------------------------------------------
// Reads
// ---------------------------------------------------------------------------

/// Why a typed read pattern is refused before binding.
pub open spec fn read_error(read: SqlPgqRead) -> Option<GqlErrorView> {
    if read.optional && read.relationship is None {
        Some(
            errors::unsupported_error(
                nowhere(),
                "SQL/PGQ node-only optional patterns require row-stream join planning"@,
            ),
        )
    } else if read.returns@.len() == 0 {
        Some(
            errors::bind_error(
                nowhere(),
                "SQL/PGQ adapter requires at least one return item"@,
            ),
        )
    } else {
        match read.relationship {
            Some((rel, _)) => hops_error(rel),
            None => None,
        }
    }
}

/// Whether a match clause is that of a typed read pattern.
pub open spec fn is_match_of(clause: MatchClause, read: SqlPgqRead) -> bool {
    &&& clause.optional == read.optional
    &&& clause.patterns@.len() == 0
    &&& clause.span == nowhere()
    &&& clause.pattern.path_var is None
    &&& clause.pattern.span == nowhere()
    &&& is_node_pat(clause.pattern.start, read.source)
    &&& match read.relationship {
        Some((rel, target)) => clause.pattern.tail@.len() == 1 && is_rel_pat(
            clause.pattern.tail@[0].0,
            rel,
        ) && is_node_pat(clause.pattern.tail@[0].1, target),
        None => clause.pattern.tail@.len() == 0,
    }
}

/// Whether a query is that of a typed read pattern.
pub open spec fn is_query_of(query: Query, read: SqlPgqRead) -> bool {
    &&& is_match_of(query.match_, read)
    &&& query.where_ is None
    &&& query.with_@.len() == 0
    &&& query.return_.distinct == read.distinct
    &&& query.return_.span == nowhere()
    &&& query.return_.items@.len() == read.returns@.len()
    &&& forall|i: int|
        0 <= i < read.returns@.len() ==> is_return_item(
            #[trigger] query.return_.items@[i],
            read.returns@[i],
        )
    &&& query.order_by@.len() == read.order_by@.len()
    &&& forall|i: int|
        0 <= i < read.order_by@.len() ==> is_sort_item(
            #[trigger] query.order_by@[i],
            read.order_by@[i],
        )
    &&& query.skip == read.skip
    &&& query.limit == read.limit
    &&& query.span == nowhere()
}

impl SqlPgqRead {
    /// The statement of a typed read pattern.
    pub fn to_gql_statement(&self) -> (result: GqlResult<Statement>)
        ensures
            match read_error(*self) {
                Some(error) => result matches Err(given) && given@ == error,
                None => result matches Ok(Statement::Read(query)) && is_query_of(query, *self),
            },
    {
        if self.optional && self.relationship.is_none() {
            return Err(
                GqlError::unsupported(
                    adapter_span(),
                    "SQL/PGQ node-only optional patterns require row-stream join planning",
                ),
            );
        }
        if self.returns.len() == 0 {
            return Err(
                GqlError::bind(
                    adapter_span(),
                    "SQL/PGQ adapter requires at least one return item",
                ),
            );
        }
        let start: NodePat = node_pat(&self.source);
        let mut tail: Vec<(RelPat, NodePat)> = Vec::new();
        match &self.relationship {
            Some((rel, target)) => {
                tail.push((rel_pat(rel)?, node_pat(target)));
            },
            None => {},
        }
        let mut items: Vec<ReturnItem> = Vec::new();
        for i in 0..self.returns.len()
            invariant
                items@.len() == i,
                forall|j: int|
                    0 <= j < i ==> is_return_item(#[trigger] items@[j], self.returns@[j]),
        {
            items.push(return_item(&self.returns[i]));
        }
        let mut order_by: Vec<SortItem> = Vec::new();
        for i in 0..self.order_by.len()
            invariant
                order_by@.len() == i,
                forall|j: int|
                    0 <= j < i ==> is_sort_item(#[trigger] order_by@[j], self.order_by@[j]),
        {
            order_by.push(sort_item(&self.order_by[i]));
        }
        let with_: Vec<WithClause> = Vec::new();
        Ok(
            Statement::Read(
                Query {
                    match_: MatchClause {
                        optional: self.optional,
                        pattern: Pattern { path_var: None, start, tail, span: adapter_span() },
                        patterns: Vec::new(),
                        span: adapter_span(),
                    },
                    where_: None,
                    with_,
                    return_: ReturnClause {
                        distinct: self.distinct,
                        items,
                        span: adapter_span(),
                    },
                    order_by,
                    skip: self.skip,
                    limit: self.limit,
                    span: adapter_span(),
                },
            ),
        )
    }
}

/// Lower a typed SQL/PGQ read pattern into the shared logical plans: it binds as
/// the query with the same pattern.
pub fn lower_read<C: CatalogSnapshot>(read: &SqlPgqRead, catalog: &C) -> (result: GqlResult<
    LogicalStatement,
>)
    ensures
        match read_error(*read) {
            Some(error) => result matches Err(given) && given@ == error,
            None => exists|query: Query| #[trigger]
                is_query_of(query, *read) && errors::outcome(result) == semantics::bound_statement(
                    Statement::Read(query),
                    *catalog,
                ),
        },
{
    let statement: Statement = read.to_gql_statement()?;
    assert(is_query_of(statement->Read_0, *read));
    bind_statement(&statement, catalog)
}

} // verus!
