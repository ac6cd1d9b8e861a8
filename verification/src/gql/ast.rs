//! Syntax trees of the graph query subset.
use vstd::prelude::*;

use crate::gql::errors::Span;
use crate::types::Binary64;

verus! {

/// A name in the query text.
#[derive(Debug, Clone, PartialEq, Eq)]
pub struct Ident {
    pub text: String,
    pub span: Span,
}

/// A parsed statement.
#[derive(Debug, PartialEq, Eq)]
pub enum Statement {
    Read(Query),
    Create(CreateQuery),
    SetProperty(SetQuery),
    Remove(RemoveQuery),
    Delete(DeleteQuery),
    DetachDelete(DetachDeleteQuery),
    Merge(MergeQuery),
}

/// A read query.
#[derive(Debug, PartialEq, Eq)]
pub struct Query {
    pub match_: MatchClause,
    pub where_: Option<Expr>,
    pub with_: Vec<WithClause>,
    pub return_: ReturnClause,
    pub order_by: Vec<SortItem>,
    pub skip: Option<u64>,
    pub limit: Option<u64>,
    pub span: Span,
}

/// A `MATCH` clause.
#[derive(Debug, Clone, PartialEq, Eq)]
pub struct MatchClause {
    /// Whether the clause is `OPTIONAL MATCH`.
    pub optional: bool,
    /// The first pattern.
    pub pattern: Pattern,
    /// Every pattern, where the clause lists more than one.
    pub patterns: Vec<Pattern>,
    pub span: Span,
}

/// A chain of nodes and relationships.
#[derive(Debug, Clone, PartialEq, Eq)]
pub struct Pattern {
    /// Variable that names the whole path.
    pub path_var: Option<Ident>,
    pub start: NodePat,
    pub tail: Vec<(RelPat, NodePat)>,
    pub span: Span,
}

/// A node pattern.
#[derive(Debug, Clone, PartialEq, Eq)]
pub struct NodePat {
    pub var: Option<Ident>,
    pub label: Option<Ident>,
    pub props: Vec<(Ident, Operand)>,
    pub span: Span,
}

/// A relationship pattern.
#[derive(Debug, Clone, PartialEq, Eq)]
pub struct RelPat {
    pub var: Option<Ident>,
    pub rel_type: Option<Ident>,
    pub direction: Direction,
    pub var_len: Option<VarLen>,
    pub props: Vec<(Ident, Operand)>,
    pub span: Span,
}

/// The direction of a relationship pattern.
#[derive(Debug, Clone, Copy, PartialEq, Eq, Structural)]
pub enum Direction {
    Out,
    In,
    Undirected,
}

/// The hop bounds of a variable-length relationship.
#[derive(Debug, Clone, Copy, PartialEq, Eq, Structural)]
pub struct VarLen {
    pub min: u32,
    pub max: u32,
    pub span: Span,
}

/// A boolean expression.
#[derive(Debug, PartialEq, Eq)]
pub enum Expr {
    And { lhs: Box<Expr>, rhs: Box<Expr>, span: Span },
    Or { lhs: Box<Expr>, rhs: Box<Expr>, span: Span },
    Not { expr: Box<Expr>, span: Span },
    Compare { lhs: Operand, op: CmpOp, rhs: Option<Operand>, span: Span },
}

/// An operand of a comparison.
#[derive(Debug, Clone, PartialEq, Eq)]
pub enum Operand {
    Property { var: Ident, property: Ident, span: Span },
    Literal(Literal),
    Param { name: Ident, span: Span },
    List { values: Vec<Literal>, span: Span },
}

/// A literal.
#[derive(Debug, Clone, PartialEq, Eq)]
pub enum Literal {
    Value { value: LiteralValue, span: Span },
}

/// The value of a literal.
#[derive(Debug, Clone, PartialEq, Eq)]
pub enum LiteralValue {
    Str(String),
    Int(i64),
    Float(Binary64),
    Bool(bool),
    Null,
}

/// A comparison operator.
#[derive(Debug, Clone, Copy, PartialEq, Eq, Structural)]
pub enum CmpOp {
    Eq,
    Neq,
    Lt,
    Lte,
    Gt,
    Gte,
    In,
    IsNull,
    IsNotNull,
}

/// A `WITH` clause.
#[derive(Debug, Clone, PartialEq, Eq)]
pub struct WithClause {
    pub distinct: bool,
    pub items: Vec<ReturnItem>,
    pub span: Span,
}

/// A `RETURN` clause.
#[derive(Debug, Clone, PartialEq, Eq)]
pub struct ReturnClause {
    pub distinct: bool,
    pub items: Vec<ReturnItem>,
    pub span: Span,
}

/// One projected expression.
#[derive(Debug, Clone, PartialEq, Eq)]
pub struct ReturnItem {
    pub expr: ReturnExpr,
    pub alias: Option<Ident>,
    pub span: Span,
}

/// A projected expression.
#[derive(Debug, Clone, PartialEq, Eq)]
pub enum ReturnExpr {
    Var { var: Ident, span: Span },
    Property { var: Ident, property: Ident, span: Span },
    Func { name: Ident, args: Vec<Ident>, span: Span },
    Aggregate { func: AggregateFunc, distinct: bool, arg: AggregateArg, name: Ident, span: Span },
}

/// An aggregate function.
#[derive(Debug, Clone, Copy, PartialEq, Eq, Structural)]
pub enum AggregateFunc {
    Count,
    Sum,
    Avg,
    Min,
    Max,
    Collect,
}

/// The argument of an aggregate function.
#[derive(Debug, Clone, PartialEq, Eq)]
pub enum AggregateArg {
    All { span: Span },
    Var { var: Ident, span: Span },
    Property { var: Ident, property: Ident, span: Span },
}

/// One `ORDER BY` item.
#[derive(Debug, Clone, PartialEq, Eq)]
pub struct SortItem {
    pub key: SortKey,
    pub desc: bool,
    pub span: Span,
}

/// The key of an `ORDER BY` item.
#[derive(Debug, Clone, PartialEq, Eq)]
pub enum SortKey {
    Alias { alias: Ident, span: Span },
    Property { var: Ident, property: Ident, span: Span },
}

/// A `CREATE` query.
#[derive(Debug, Clone, PartialEq, Eq)]
pub struct CreateQuery {
    pub create: CreateClause,
    pub return_: ReturnClause,
    pub span: Span,
}

/// A `CREATE` clause.
#[derive(Debug, Clone, PartialEq, Eq)]
pub struct CreateClause {
    pub node: NodePat,
    pub span: Span,
}

/// A `MERGE` query.
#[derive(Debug, Clone, PartialEq, Eq)]
pub struct MergeQuery {
    pub merge: MergeClause,
    pub on_create: Option<SetClause>,
    pub on_match: Option<SetClause>,
    pub return_: ReturnClause,
    pub span: Span,
}

/// A `MERGE` clause.
#[derive(Debug, Clone, PartialEq, Eq)]
pub struct MergeClause {
    pub node: NodePat,
    pub span: Span,
}

/// A property of a variable.
#[derive(Debug, Clone, PartialEq, Eq)]
pub struct PropertyTarget {
    pub var: Ident,
    pub property: Ident,
    pub span: Span,
}

/// A `SET` query.
#[derive(Debug, PartialEq, Eq)]
pub struct SetQuery {
    pub match_: MatchClause,
    pub where_: Option<Expr>,
    pub set: SetClause,
    pub return_: ReturnClause,
    pub span: Span,
}

/// A `SET` clause.
#[derive(Debug, Clone, PartialEq, Eq)]
pub struct SetClause {
    pub target: PropertyTarget,
    pub value: Operand,
    pub span: Span,
}

/// A `REMOVE` query.
#[derive(Debug, PartialEq, Eq)]
pub struct RemoveQuery {
    pub match_: MatchClause,
    pub where_: Option<Expr>,
    pub remove: RemoveClause,
    pub return_: ReturnClause,
    pub span: Span,
}

/// A `REMOVE` clause.
#[derive(Debug, Clone, PartialEq, Eq)]
pub struct RemoveClause {
    pub target: RemoveTarget,
    pub span: Span,
}

/// What a `REMOVE` clause removes.
#[derive(Debug, Clone, PartialEq, Eq)]
pub enum RemoveTarget {
    Property(PropertyTarget),
    Label { var: Ident, label: Ident, span: Span },
}

/// A `DELETE` query.
#[derive(Debug, PartialEq, Eq)]
pub struct DeleteQuery {
    pub match_: MatchClause,
    pub where_: Option<Expr>,
    pub delete: DeleteClause,
    pub return_: ReturnClause,
    pub span: Span,
}

/// A `DETACH DELETE` query.
#[derive(Debug, PartialEq, Eq)]
pub struct DetachDeleteQuery {
    pub match_: MatchClause,
    pub where_: Option<Expr>,
    pub delete: DeleteClause,
    pub return_: ReturnClause,
    pub span: Span,
}

/// A `DELETE` or `DETACH DELETE` clause.
#[derive(Debug, Clone, PartialEq, Eq)]
pub struct DeleteClause {
    pub var: Ident,
    pub span: Span,
}

} // verus!
