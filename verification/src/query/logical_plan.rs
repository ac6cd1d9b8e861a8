//! Logical plans produced by semantic binding.
use vstd::prelude::*;

use crate::gql::ast::LiteralValue;
use crate::query::names::NameSet;
use crate::text;
use crate::types::{Binary64, Binary64View};
use crate::views;

verus! {

/// Bound relationship direction.
#[derive(Debug, Clone, Copy, PartialEq, Eq, Structural)]
pub enum BoundDirection {
    /// Source to target.
    Out,
    /// Target to source.
    In,
    /// Either direction.
    Undirected,
}

/// Bound hop count range.
#[derive(Debug, Clone, Copy, PartialEq, Eq, Structural)]
pub struct HopBounds {
    /// Whether the query used an explicit variable-length relationship pattern.
    pub variable: bool,
    /// Minimum hop count.
    pub min: u32,
    /// Maximum hop count.
    pub max: u32,
}

/// Bound path function.
#[derive(Debug, Clone, Copy, PartialEq, Eq, Structural)]
pub enum PathFunc {
    /// `nodes(path)`.
    Nodes,
    /// `relationships(path)`.
    Relationships,
    /// `length(path)`.
    Length,
}

/// Bound aggregate function.
#[derive(Debug, Clone, Copy, PartialEq, Eq, Structural)]
pub enum AggregateFunc {
    /// `count(...)`.
    Count,
    /// `sum(...)`.
    Sum,
    /// `avg(...)`.
    Avg,
    /// `min(...)`.
    Min,
    /// `max(...)`.
    Max,
    /// `collect(...)`.
    Collect,
}

/// Which node of a match a value references.
#[derive(Debug, Clone, Copy, PartialEq, Eq, Structural)]
pub enum BindingSide {
    /// Source node.
    Source,
    /// Target node.
    Target,
    /// Node of a path or node slot of a join.
    PathNode(usize),
}

/// Bound comparison operator.
#[derive(Debug, Clone, Copy, PartialEq, Eq, Structural)]
pub enum BoundCmpOp {
    /// `=`
    Eq,
    /// `<>`
    Neq,
    /// `<`
    Lt,
    /// `<=`
    Lte,
    /// `>`
    Gt,
    /// `>=`
    Gte,
    /// `IN`
    In,
    /// `IS NULL`
    IsNull,
    /// `IS NOT NULL`
    IsNotNull,
}

/// Scalar value.
#[derive(Debug, Clone, PartialEq, Eq)]
pub enum Scalar {
    /// Null.
    Null,
    /// Boolean.
    Bool(bool),
    /// Integer.
    Int(i64),
    /// Finite floating-point number.
    Float(Binary64),
    /// Text.
    Text(String),
}

/// What `Scalar` holds.
pub enum ScalarView {
    Null,
    Bool(bool),
    Int(i64),
    Float(Binary64View),
    Text(Seq<char>),
}

impl View for Scalar {
    type V = ScalarView;

    open spec fn view(&self) -> ScalarView {
        match self {
            Scalar::Null => ScalarView::Null,
            Scalar::Bool(inner) => ScalarView::Bool(*inner),
            Scalar::Int(inner) => ScalarView::Int(*inner),
            Scalar::Float(inner) => ScalarView::Float(inner@),
            Scalar::Text(inner) => ScalarView::Text(inner@),
        }
    }
}

impl Scalar {
    /// A copy.
    pub fn duplicate(&self) -> (copy: Scalar)
        ensures
            copy@ == self@,
    {
        match self {
            Scalar::Null => Scalar::Null,
            Scalar::Bool(inner) => Scalar::Bool(*inner),
            Scalar::Int(inner) => Scalar::Int(*inner),
            Scalar::Float(inner) => Scalar::Float(inner.duplicate()),
            Scalar::Text(inner) => Scalar::Text(inner.clone()),
        }
    }
}

/// Bound value expression.
#[derive(Debug, Clone, PartialEq, Eq)]
pub enum ValueExpr {
    /// Property read.
    Property { side: BindingSide, property: String },
    /// Literal scalar.
    Literal(Scalar),
    /// Query parameter by name.
    Param(String),
    /// Literal list.
    List(Vec<Scalar>),
}

/// What `ValueExpr` holds.
pub enum ValueExprView {
    Property { side: BindingSide, property: Seq<char> },
    Literal(ScalarView),
    Param(Seq<char>),
    List(Seq<ScalarView>),
}

impl View for ValueExpr {
    type V = ValueExprView;

    open spec fn view(&self) -> ValueExprView {
        match self {
            ValueExpr::Property { side, property } => ValueExprView::Property {
                side: *side,
                property: property@,
            },
            ValueExpr::Literal(inner) => ValueExprView::Literal(inner@),
            ValueExpr::Param(inner) => ValueExprView::Param(inner@),
            ValueExpr::List(inner) => ValueExprView::List(views::views(inner@)),
        }
    }
}

/// Bound boolean predicate.
#[derive(Debug, PartialEq, Eq)]
pub enum Predicate {
    /// Logical conjunction.
    And(Box<Predicate>, Box<Predicate>),
    /// Logical disjunction.
    Or(Box<Predicate>, Box<Predicate>),
    /// Logical negation.
    Not(Box<Predicate>),
    /// Comparison predicate.
    Compare {
        /// Left operand.
        lhs: ValueExpr,
        /// Comparison operator.
        op: BoundCmpOp,
        /// Optional right operand.
        rhs: Option<ValueExpr>,
    },
}

/// What `Predicate` holds.
pub enum PredicateView {
    And(Box<PredicateView>, Box<PredicateView>),
    Or(Box<PredicateView>, Box<PredicateView>),
    Not(Box<PredicateView>),
    Compare { lhs: ValueExprView, op: BoundCmpOp, rhs: Option<ValueExprView> },
}

/// What a predicate holds.
pub open spec fn predicate_view(predicate: Predicate) -> PredicateView
    decreases predicate,
{
    match predicate {
        Predicate::And(lhs, rhs) => PredicateView::And(
            Box::new(predicate_view(*lhs)),
            Box::new(predicate_view(*rhs)),
        ),
        Predicate::Or(lhs, rhs) => PredicateView::Or(
            Box::new(predicate_view(*lhs)),
            Box::new(predicate_view(*rhs)),
        ),
        Predicate::Not(inner) => PredicateView::Not(Box::new(predicate_view(*inner))),
        Predicate::Compare { lhs, op, rhs } => PredicateView::Compare {
            lhs: lhs@,
            op,
            rhs: views::some_view(rhs),
        },
    }
}

impl View for Predicate {
    type V = PredicateView;

    open spec fn view(&self) -> PredicateView {
        predicate_view(*self)
    }
}

/// Bound aggregate argument.
#[derive(Debug, Clone, PartialEq, Eq)]
pub enum AggregateArg {
    /// `*`.
    All,
    /// Node variable.
    Node(BindingSide),
    /// Relationship variable.
    Relationship,
    /// Node property.
    Property { side: BindingSide, property: String },
}

/// What `AggregateArg` holds.
pub enum AggregateArgView {
    All,
    Node(BindingSide),
    Relationship,
    Property { side: BindingSide, property: Seq<char> },
}

impl View for AggregateArg {
    type V = AggregateArgView;

    open spec fn view(&self) -> AggregateArgView {
        match self {
            AggregateArg::All => AggregateArgView::All,
            AggregateArg::Node(inner) => AggregateArgView::Node(*inner),
            AggregateArg::Relationship => AggregateArgView::Relationship,
            AggregateArg::Property { side, property } => AggregateArgView::Property {
                side: *side,
                property: property@,
            },
        }
    }
}

impl AggregateArg {
    /// A copy.
    pub fn duplicate(&self) -> (copy: AggregateArg)
        ensures
            copy@ == self@,
    {
        match self {
            AggregateArg::All => AggregateArg::All,
            AggregateArg::Node(inner) => AggregateArg::Node(*inner),
            AggregateArg::Relationship => AggregateArg::Relationship,
            AggregateArg::Property { side, property } => AggregateArg::Property {
                side: *side,
                property: property.clone(),
            },
        }
    }
}

/// Bound `RETURN` item.
#[derive(Debug, Clone, PartialEq, Eq)]
pub enum ReturnBinding {
    /// Whole node variable.
    Node { side: BindingSide, name: String },
    /// Whole relationship variable.
    Relationship { name: String },
    /// Whole path value.
    Path { name: String },
    /// Path function value.
    PathFunction { func: PathFunc, name: String },
    /// Node property.
    Property { side: BindingSide, property: String, name: String },
    /// Aggregate value.
    Aggregate { func: AggregateFunc, arg: AggregateArg, distinct: bool, name: String },
}

/// What `ReturnBinding` holds.
pub enum ReturnBindingView {
    Node { side: BindingSide, name: Seq<char> },
    Relationship { name: Seq<char> },
    Path { name: Seq<char> },
    PathFunction { func: PathFunc, name: Seq<char> },
    Property { side: BindingSide, property: Seq<char>, name: Seq<char> },
    Aggregate { func: AggregateFunc, arg: AggregateArgView, distinct: bool, name: Seq<char> },
}

impl View for ReturnBinding {
    type V = ReturnBindingView;

    open spec fn view(&self) -> ReturnBindingView {
        match self {
            ReturnBinding::Node { side, name } => ReturnBindingView::Node {
                side: *side,
                name: name@,
            },
            ReturnBinding::Relationship { name } => ReturnBindingView::Relationship {
                name: name@,
            },
            ReturnBinding::Path { name } => ReturnBindingView::Path {
                name: name@,
            },
            ReturnBinding::PathFunction { func, name } => ReturnBindingView::PathFunction {
                func: *func,
                name: name@,
            },
            ReturnBinding::Property { side, property, name } => ReturnBindingView::Property {
                side: *side,
                property: property@,
                name: name@,
            },
            ReturnBinding::Aggregate { func, arg, distinct, name } => ReturnBindingView::Aggregate {
                func: *func,
                arg: arg@,
                distinct: *distinct,
                name: name@,
            },
        }
    }
}

/// The output column name of a `RETURN` item.
pub open spec fn return_name(binding: ReturnBindingView) -> Seq<char> {
    match binding {
        ReturnBindingView::Node { name, .. } => name,
        ReturnBindingView::Relationship { name } => name,
        ReturnBindingView::Path { name } => name,
        ReturnBindingView::PathFunction { name, .. } => name,
        ReturnBindingView::Property { name, .. } => name,
        ReturnBindingView::Aggregate { name, .. } => name,
    }
}

/// Whether a `RETURN` item projects a scalar value sortable by output name.
pub open spec fn sortable_scalar(binding: ReturnBindingView) -> bool {
    binding is Property || binding is Aggregate || (binding matches ReturnBindingView::PathFunction {
        func,
        ..
    } && func is Length)
}

impl ReturnBinding {
    /// Return the output column name.
    pub fn name(&self) -> (name: &str)
        ensures
            name@ == return_name(self@),
    {
        match self {
            ReturnBinding::Node { name, .. } => name.as_str(),
            ReturnBinding::Relationship { name } => name.as_str(),
            ReturnBinding::Path { name } => name.as_str(),
            ReturnBinding::PathFunction { name, .. } => name.as_str(),
            ReturnBinding::Property { name, .. } => name.as_str(),
            ReturnBinding::Aggregate { name, .. } => name.as_str(),
        }
    }

    /// Return whether this binding projects a scalar value sortable by output name.
    pub fn is_sortable_scalar(&self) -> (sortable: bool)
        ensures
            sortable == sortable_scalar(self@),
    {
        match self {
            ReturnBinding::Property { .. } => true,
            ReturnBinding::Aggregate { .. } => true,
            ReturnBinding::PathFunction { func, .. } => *func == PathFunc::Length,
            _ => false,
        }
    }

    /// Return whether this binding is an aggregate.
    pub fn is_aggregate(&self) -> (aggregate: bool)
        ensures
            aggregate == (self@ is Aggregate),
    {
        match self {
            ReturnBinding::Aggregate { .. } => true,
            _ => false,
        }
    }
}

/// Bound sort value.
#[derive(Debug, Clone, PartialEq, Eq)]
pub enum SortBindingKey {
    /// Sort by a return column name.
    ReturnName(String),
    /// Sort by a node property.
    Property { side: BindingSide, property: String },
}

/// What `SortBindingKey` holds.
pub enum SortBindingKeyView {
    ReturnName(Seq<char>),
    Property { side: BindingSide, property: Seq<char> },
}

impl View for SortBindingKey {
    type V = SortBindingKeyView;

    open spec fn view(&self) -> SortBindingKeyView {
        match self {
            SortBindingKey::ReturnName(inner) => SortBindingKeyView::ReturnName(inner@),
            SortBindingKey::Property { side, property } => SortBindingKeyView::Property {
                side: *side,
                property: property@,
            },
        }
    }
}

/// Bound sort key.
#[derive(Debug, Clone, PartialEq, Eq)]
pub struct SortBinding {
    /// Value to sort by.
    pub key: SortBindingKey,
    /// Sort descending when true.
    pub desc: bool,
}

/// What `SortBinding` holds.
pub struct SortBindingView {
    pub key: SortBindingKeyView,
    pub desc: bool,
}

impl View for SortBinding {
    type V = SortBindingView;

    open spec fn view(&self) -> SortBindingView {
        SortBindingView {
            key: self.key@,
            desc: self.desc,
        }
    }
}

/// Bound node variable and table.
#[derive(Debug, Clone, PartialEq, Eq)]
pub struct BoundNode {
    /// Variable name.
    pub var: String,
    /// Label text.
    pub label: String,
    /// Backing source table OID.
    pub table_oid: u32,
    /// Registered property columns.
    pub properties: NameSet,
}

/// What `BoundNode` holds.
pub struct BoundNodeView {
    pub var: Seq<char>,
    pub label: Seq<char>,
    pub table_oid: u32,
    pub properties: Seq<Seq<char>>,
}

impl View for BoundNode {
    type V = BoundNodeView;

    open spec fn view(&self) -> BoundNodeView {
        BoundNodeView {
            var: self.var@,
            label: self.label@,
            table_oid: self.table_oid,
            properties: self.properties@,
        }
    }
}

/// Bound relationship type.
#[derive(Debug, Clone, PartialEq, Eq)]
pub struct BoundRel {
    /// Optional relationship variable name.
    pub var: Option<String>,
    /// Relationship type text.
    pub rel_type: String,
    /// Traversal direction.
    pub direction: BoundDirection,
    /// Hop bounds.
    pub hops: HopBounds,
}

/// What `BoundRel` holds.
pub struct BoundRelView {
    pub var: Option<Seq<char>>,
    pub rel_type: Seq<char>,
    pub direction: BoundDirection,
    pub hops: HopBounds,
}

impl View for BoundRel {
    type V = BoundRelView;

    open spec fn view(&self) -> BoundRelView {
        BoundRelView {
            var: views::some_view(self.var),
            rel_type: self.rel_type@,
            direction: self.direction,
            hops: self.hops,
        }
    }
}

/// What a literal value holds.
pub enum LiteralView {
    Str(Seq<char>),
    Int(i64),
    Float(Binary64View),
    Bool(bool),
    Null,
}

impl View for LiteralValue {
    type V = LiteralView;

    open spec fn view(&self) -> LiteralView {
        match self {
            LiteralValue::Str(text) => LiteralView::Str(text@),
            LiteralValue::Int(value) => LiteralView::Int(*value),
            LiteralValue::Float(number) => LiteralView::Float(number@),
            LiteralValue::Bool(value) => LiteralView::Bool(*value),
            LiteralValue::Null => LiteralView::Null,
        }
    }
}

/// Whether IEEE 754 binary64 bits are those of a finite number.
pub open spec fn is_finite(bits: u64) -> bool {
    (bits / 0x10_0000_0000_0000) % 0x800 != 0x7ff
}

/// The scalar of a literal: a floating-point number that is not finite is null.
pub open spec fn literal_scalar(value: LiteralView) -> ScalarView {
    match value {
        LiteralView::Str(text) => ScalarView::Text(text),
        LiteralView::Int(value) => ScalarView::Int(value),
        LiteralView::Float(number) => if is_finite(number.bits) {
            ScalarView::Float(number)
        } else {
            ScalarView::Null
        },
        LiteralView::Bool(value) => ScalarView::Bool(value),
        LiteralView::Null => ScalarView::Null,
    }
}

/// The scalar of a literal: a floating-point number that is not finite is null.
pub fn literal_value_json(value: &LiteralValue) -> (scalar: Scalar)
    ensures
        scalar@ == literal_scalar(value@),
{
    match value {
        LiteralValue::Str(text) => Scalar::Text(text.clone()),
        LiteralValue::Int(value) => Scalar::Int(*value),
        LiteralValue::Float(number) => if (number.bits / 0x10_0000_0000_0000) % 0x800 != 0x7ff {
            Scalar::Float(number.duplicate())
        } else {
            Scalar::Null
        },
        LiteralValue::Bool(value) => Scalar::Bool(*value),
        LiteralValue::Null => Scalar::Null,
    }
}

/// A copy of a literal value.
pub fn duplicate_literal(value: &LiteralValue) -> (copy: LiteralValue)
    ensures
        copy@ == value@,
{
    match value {
        LiteralValue::Str(text) => LiteralValue::Str(text.clone()),
        LiteralValue::Int(value) => LiteralValue::Int(*value),
        LiteralValue::Float(number) => LiteralValue::Float(number.duplicate()),
        LiteralValue::Bool(value) => LiteralValue::Bool(*value),
        LiteralValue::Null => LiteralValue::Null,
    }
}

/// Bound write value.
#[derive(Debug, Clone, PartialEq, Eq)]
pub enum CreateValue {
    /// Literal scalar.
    Literal(LiteralValue),
    /// Query parameter by name.
    Param(String),
}

/// What `CreateValue` holds.
pub enum CreateValueView {
    Literal(LiteralView),
    Param(Seq<char>),
}

impl View for CreateValue {
    type V = CreateValueView;

    open spec fn view(&self) -> CreateValueView {
        match self {
            CreateValue::Literal(inner) => CreateValueView::Literal(inner@),
            CreateValue::Param(inner) => CreateValueView::Param(inner@),
        }
    }
}

/// Bound property value for a write.
#[derive(Debug, Clone, PartialEq, Eq)]
pub struct CreateProperty {
    /// Source table column name.
    pub property: String,
    /// Value expression.
    pub value: CreateValue,
}

/// What `CreateProperty` holds.
pub struct CreatePropertyView {
    pub property: Seq<char>,
    pub value: CreateValueView,
}

impl View for CreateProperty {
    type V = CreatePropertyView;

    open spec fn view(&self) -> CreatePropertyView {
        CreatePropertyView {
            property: self.property@,
            value: self.value@,
        }
    }
}

/// Return slot for writes of one node.
#[derive(Debug, Clone, PartialEq, Eq)]
pub enum CreateReturnBinding {
    /// Whole written node variable.
    Node { name: String },
    /// Written node property.
    Property { property: String, name: String },
}

/// What `CreateReturnBinding` holds.
pub enum CreateReturnBindingView {
    Node { name: Seq<char> },
    Property { property: Seq<char>, name: Seq<char> },
}

impl View for CreateReturnBinding {
    type V = CreateReturnBindingView;

    open spec fn view(&self) -> CreateReturnBindingView {
        match self {
            CreateReturnBinding::Node { name } => CreateReturnBindingView::Node {
                name: name@,
            },
            CreateReturnBinding::Property { property, name } => CreateReturnBindingView::Property {
                property: property@,
                name: name@,
            },
        }
    }
}

/// The output column name of a write's `RETURN` item.
pub open spec fn create_return_name(binding: CreateReturnBindingView) -> Seq<char> {
    match binding {
        CreateReturnBindingView::Node { name } => name,
        CreateReturnBindingView::Property { name, .. } => name,
    }
}

impl CreateReturnBinding {
    /// Return the output column name.
    pub fn name(&self) -> (name: &str)
        ensures
            name@ == create_return_name(self@),
    {
        match self {
            CreateReturnBinding::Node { name } => name.as_str(),
            CreateReturnBinding::Property { name, .. } => name.as_str(),
        }
    }
}

/// Bound mapped edge row details.
#[derive(Debug, Clone, PartialEq, Eq)]
pub struct BoundMappedEdge {
    /// Edge row table OID.
    pub edge_table_oid: u32,
    /// Registered source node table OID.
    pub source_table_oid: u32,
    /// Registered target node table OID.
    pub target_table_oid: u32,
    /// Edge row source key column.
    pub source_column: String,
    /// Edge row target key column.
    pub target_column: String,
    /// Whether the edge is registered bidirectionally.
    pub bidirectional: bool,
}

/// What `BoundMappedEdge` holds.
pub struct BoundMappedEdgeView {
    pub edge_table_oid: u32,
    pub source_table_oid: u32,
    pub target_table_oid: u32,
    pub source_column: Seq<char>,
    pub target_column: Seq<char>,
    pub bidirectional: bool,
}

impl View for BoundMappedEdge {
    type V = BoundMappedEdgeView;

    open spec fn view(&self) -> BoundMappedEdgeView {
        BoundMappedEdgeView {
            edge_table_oid: self.edge_table_oid,
            source_table_oid: self.source_table_oid,
            target_table_oid: self.target_table_oid,
            source_column: self.source_column@,
            target_column: self.target_column@,
            bidirectional: self.bidirectional,
        }
    }
}

/// Bound incident edge row details for `DETACH DELETE`.
#[derive(Debug, Clone, PartialEq, Eq)]
pub struct BoundIncidentEdge {
    /// Relationship type label.
    pub rel_type: String,
    /// Registered edge row mapping.
    pub edge: BoundMappedEdge,
}

/// What `BoundIncidentEdge` holds.
pub struct BoundIncidentEdgeView {
    pub rel_type: Seq<char>,
    pub edge: BoundMappedEdgeView,
}

impl View for BoundIncidentEdge {
    type V = BoundIncidentEdgeView;

    open spec fn view(&self) -> BoundIncidentEdgeView {
        BoundIncidentEdgeView {
            rel_type: self.rel_type@,
            edge: self.edge@,
        }
    }
}

/// Bound read-only logical query.
#[derive(Debug, PartialEq, Eq)]
pub struct LogicalPlan {
    /// Whether unmatched source rows should be null-extended.
    pub optional: bool,
    /// Source node binding.
    pub source: BoundNode,
    /// Single relationship expansion.
    pub relationship: BoundRel,
    /// Target node binding.
    pub target: BoundNode,
    /// Return slots in requested order.
    pub returns: Vec<ReturnBinding>,
    /// Row-stream DISTINCT projection stages introduced by `WITH DISTINCT`.
    pub distinct_stages: Vec<Vec<ReturnBinding>>,
    /// Whether final projected rows should be deduplicated.
    pub distinct: bool,
    /// Optional hydrated-row predicate.
    pub predicate: Option<Predicate>,
    /// Sort keys in requested order.
    pub order_by: Vec<SortBinding>,
    /// Number of rows to skip after ordering.
    pub skip: Option<u64>,
    /// Maximum rows to return.
    pub limit: Option<u64>,
}

/// What `LogicalPlan` holds.
pub struct LogicalPlanView {
    pub optional: bool,
    pub source: BoundNodeView,
    pub relationship: BoundRelView,
    pub target: BoundNodeView,
    pub returns: Seq<ReturnBindingView>,
    pub distinct_stages: Seq<Seq<ReturnBindingView>>,
    pub distinct: bool,
    pub predicate: Option<PredicateView>,
    pub order_by: Seq<SortBindingView>,
    pub skip: Option<u64>,
    pub limit: Option<u64>,
}

impl View for LogicalPlan {
    type V = LogicalPlanView;

    open spec fn view(&self) -> LogicalPlanView {
        LogicalPlanView {
            optional: self.optional,
            source: self.source@,
            relationship: self.relationship@,
            target: self.target@,
            returns: views::views(self.returns@),
            distinct_stages: views::nested(self.distinct_stages@),
            distinct: self.distinct,
            predicate: views::some_view(self.predicate),
            order_by: views::views(self.order_by@),
            skip: self.skip,
            limit: self.limit,
        }
    }
}

/// Bound node-only logical query.
#[derive(Debug, PartialEq, Eq)]
pub struct LogicalNodeScan {
    /// Scanned node binding.
    pub node: BoundNode,
    /// Return slots in requested order.
    pub returns: Vec<ReturnBinding>,
    /// Row-stream DISTINCT projection stages introduced by `WITH DISTINCT`.
    pub distinct_stages: Vec<Vec<ReturnBinding>>,
    /// Whether final projected rows should be deduplicated.
    pub distinct: bool,
    /// Optional hydrated-row predicate.
    pub predicate: Option<Predicate>,
    /// Sort keys in requested order.
    pub order_by: Vec<SortBinding>,
    /// Number of rows to skip after ordering.
    pub skip: Option<u64>,
    /// Maximum rows to return.
    pub limit: Option<u64>,
}

/// What `LogicalNodeScan` holds.
pub struct LogicalNodeScanView {
    pub node: BoundNodeView,
    pub returns: Seq<ReturnBindingView>,
    pub distinct_stages: Seq<Seq<ReturnBindingView>>,
    pub distinct: bool,
    pub predicate: Option<PredicateView>,
    pub order_by: Seq<SortBindingView>,
    pub skip: Option<u64>,
    pub limit: Option<u64>,
}

impl View for LogicalNodeScan {
    type V = LogicalNodeScanView;

    open spec fn view(&self) -> LogicalNodeScanView {
        LogicalNodeScanView {
            node: self.node@,
            returns: views::views(self.returns@),
            distinct_stages: views::nested(self.distinct_stages@),
            distinct: self.distinct,
            predicate: views::some_view(self.predicate),
            order_by: views::views(self.order_by@),
            skip: self.skip,
            limit: self.limit,
        }
    }
}

/// Node slot of a multi-pattern join.
#[derive(Debug, Clone, PartialEq, Eq)]
pub struct LogicalJoinNodeSlot {
    /// Variable name.
    pub var: String,
    /// Backing source table OID.
    pub table_oid: u32,
    /// Label text.
    pub label: String,
    /// Registered property columns.
    pub properties: NameSet,
}

/// What `LogicalJoinNodeSlot` holds.
pub struct LogicalJoinNodeSlotView {
    pub var: Seq<char>,
    pub table_oid: u32,
    pub label: Seq<char>,
    pub properties: Seq<Seq<char>>,
}

impl View for LogicalJoinNodeSlot {
    type V = LogicalJoinNodeSlotView;

    open spec fn view(&self) -> LogicalJoinNodeSlotView {
        LogicalJoinNodeSlotView {
            var: self.var@,
            table_oid: self.table_oid,
            label: self.label@,
            properties: self.properties@,
        }
    }
}

/// One relationship of a multi-pattern join.
#[derive(Debug, Clone, PartialEq, Eq)]
pub struct LogicalJoinPattern {
    /// Slot of the source node.
    pub source_slot: usize,
    /// Relationship type text.
    pub rel_type: String,
    /// Traversal direction.
    pub direction: BoundDirection,
    /// Slot of the target node.
    pub target_slot: usize,
}

/// What `LogicalJoinPattern` holds.
pub struct LogicalJoinPatternView {
    pub source_slot: usize,
    pub rel_type: Seq<char>,
    pub direction: BoundDirection,
    pub target_slot: usize,
}

impl View for LogicalJoinPattern {
    type V = LogicalJoinPatternView;

    open spec fn view(&self) -> LogicalJoinPatternView {
        LogicalJoinPatternView {
            source_slot: self.source_slot,
            rel_type: self.rel_type@,
            direction: self.direction,
            target_slot: self.target_slot,
        }
    }
}

/// Bound multi-pattern join.
#[derive(Debug, PartialEq, Eq)]
pub struct LogicalJoinPlan {
    /// Node slots in order of first use.
    pub node_slots: Vec<LogicalJoinNodeSlot>,
    /// Patterns in query order.
    pub patterns: Vec<LogicalJoinPattern>,
    /// Return slots in requested order.
    pub returns: Vec<ReturnBinding>,
    /// Whether final projected rows should be deduplicated.
    pub distinct: bool,
    /// Optional hydrated-row predicate.
    pub predicate: Option<Predicate>,
    /// Sort keys in requested order.
    pub order_by: Vec<SortBinding>,
    /// Table OIDs of the node slots.
    pub required_table_oids: Vec<u32>,
    /// Number of rows to skip after ordering.
    pub skip: Option<u64>,
    /// Maximum rows to return.
    pub limit: Option<u64>,
}

/// What `LogicalJoinPlan` holds.
pub struct LogicalJoinPlanView {
    pub node_slots: Seq<LogicalJoinNodeSlotView>,
    pub patterns: Seq<LogicalJoinPatternView>,
    pub returns: Seq<ReturnBindingView>,
    pub distinct: bool,
    pub predicate: Option<PredicateView>,
    pub order_by: Seq<SortBindingView>,
    pub required_table_oids: Seq<u32>,
    pub skip: Option<u64>,
    pub limit: Option<u64>,
}

impl View for LogicalJoinPlan {
    type V = LogicalJoinPlanView;

    open spec fn view(&self) -> LogicalJoinPlanView {
        LogicalJoinPlanView {
            node_slots: views::views(self.node_slots@),
            patterns: views::views(self.patterns@),
            returns: views::views(self.returns@),
            distinct: self.distinct,
            predicate: views::some_view(self.predicate),
            order_by: views::views(self.order_by@),
            required_table_oids: self.required_table_oids@,
            skip: self.skip,
            limit: self.limit,
        }
    }
}

/// One segment of a wildcard path.
#[derive(Debug, Clone, PartialEq, Eq)]
pub struct LogicalWildcardPathSegment {
    /// Optional relationship variable name.
    pub rel_var: Option<String>,
    /// Optional target variable name.
    pub target_var: Option<String>,
    /// Traversal direction.
    pub direction: BoundDirection,
    /// Target table OID, where the target has a label.
    pub target_table_filter: Option<u32>,
    /// Relationship type, where the pattern has one.
    pub rel_type_filter: Option<String>,
}

/// What `LogicalWildcardPathSegment` holds.
pub struct LogicalWildcardPathSegmentView {
    pub rel_var: Option<Seq<char>>,
    pub target_var: Option<Seq<char>>,
    pub direction: BoundDirection,
    pub target_table_filter: Option<u32>,
    pub rel_type_filter: Option<Seq<char>>,
}

impl View for LogicalWildcardPathSegment {
    type V = LogicalWildcardPathSegmentView;

    open spec fn view(&self) -> LogicalWildcardPathSegmentView {
        LogicalWildcardPathSegmentView {
            rel_var: views::some_view(self.rel_var),
            target_var: views::some_view(self.target_var),
            direction: self.direction,
            target_table_filter: self.target_table_filter,
            rel_type_filter: views::some_view(self.rel_type_filter),
        }
    }
}

/// Label of a table.
#[derive(Debug, Clone, PartialEq, Eq)]
pub struct TableLabel {
    /// Table OID.
    pub table_oid: u32,
    /// Label text.
    pub label: String,
}

/// What `TableLabel` holds.
pub struct TableLabelView {
    pub table_oid: u32,
    pub label: Seq<char>,
}

impl View for TableLabel {
    type V = TableLabelView;

    open spec fn view(&self) -> TableLabelView {
        TableLabelView {
            table_oid: self.table_oid,
            label: self.label@,
        }
    }
}

/// Bound wildcard path query.
#[derive(Debug, Clone, PartialEq, Eq)]
pub struct LogicalWildcardPathPlan {
    /// Path variable name.
    pub path_var: String,
    /// Optional source variable name.
    pub source_var: Option<String>,
    /// Of the first segment: optional relationship variable name.
    pub rel_var: Option<String>,
    /// Of the first segment: optional target variable name.
    pub target_var: Option<String>,
    /// Of the first segment: traversal direction.
    pub direction: BoundDirection,
    /// Return slots in requested order.
    pub returns: Vec<ReturnBinding>,
    /// Source table OID, where the source has a label.
    pub source_table_filter: Option<u32>,
    /// Of the first segment: target table OID, where the target has a label.
    pub target_table_filter: Option<u32>,
    /// Of the first segment: relationship type, where the pattern has one.
    pub rel_type_filter: Option<String>,
    /// Segments in query order.
    pub segments: Vec<LogicalWildcardPathSegment>,
    /// OIDs of all node tables, ascending.
    pub required_node_table_oids: Vec<u32>,
    /// Labels of all node tables; of equal tables the later counts.
    pub table_labels: Vec<TableLabel>,
    /// All relationship types.
    pub rel_type_labels: NameSet,
    /// Number of rows to skip after ordering.
    pub skip: Option<u64>,
    /// Maximum rows to return.
    pub limit: Option<u64>,
}

/// What `LogicalWildcardPathPlan` holds.
pub struct LogicalWildcardPathPlanView {
    pub path_var: Seq<char>,
    pub source_var: Option<Seq<char>>,
    pub rel_var: Option<Seq<char>>,
    pub target_var: Option<Seq<char>>,
    pub direction: BoundDirection,
    pub returns: Seq<ReturnBindingView>,
    pub source_table_filter: Option<u32>,
    pub target_table_filter: Option<u32>,
    pub rel_type_filter: Option<Seq<char>>,
    pub segments: Seq<LogicalWildcardPathSegmentView>,
    pub required_node_table_oids: Seq<u32>,
    pub table_labels: Seq<TableLabelView>,
    pub rel_type_labels: Seq<Seq<char>>,
    pub skip: Option<u64>,
    pub limit: Option<u64>,
}

impl View for LogicalWildcardPathPlan {
    type V = LogicalWildcardPathPlanView;

    open spec fn view(&self) -> LogicalWildcardPathPlanView {
        LogicalWildcardPathPlanView {
            path_var: self.path_var@,
            source_var: views::some_view(self.source_var),
            rel_var: views::some_view(self.rel_var),
            target_var: views::some_view(self.target_var),
            direction: self.direction,
            returns: views::views(self.returns@),
            source_table_filter: self.source_table_filter,
            target_table_filter: self.target_table_filter,
            rel_type_filter: views::some_view(self.rel_type_filter),
            segments: views::views(self.segments@),
            required_node_table_oids: self.required_node_table_oids@,
            table_labels: views::views(self.table_labels@),
            rel_type_labels: self.rel_type_labels@,
            skip: self.skip,
            limit: self.limit,
        }
    }
}

/// Bound node creation.
#[derive(Debug, Clone, PartialEq, Eq)]
pub struct LogicalCreateNode {
    /// Created node binding.
    pub node: BoundNode,
    /// Property values to insert into PostgreSQL.
    pub properties: Vec<CreateProperty>,
    /// Return slots in requested order.
    pub returns: Vec<CreateReturnBinding>,
}

/// What `LogicalCreateNode` holds.
pub struct LogicalCreateNodeView {
    pub node: BoundNodeView,
    pub properties: Seq<CreatePropertyView>,
    pub returns: Seq<CreateReturnBindingView>,
}

impl View for LogicalCreateNode {
    type V = LogicalCreateNodeView;

    open spec fn view(&self) -> LogicalCreateNodeView {
        LogicalCreateNodeView {
            node: self.node@,
            properties: views::views(self.properties@),
            returns: views::views(self.returns@),
        }
    }
}

/// Bound node merge/upsert.
#[derive(Debug, Clone, PartialEq, Eq)]
pub struct LogicalMergeNode {
    /// Merged node binding.
    pub node: BoundNode,
    /// Property values used for the insert branch and identity lookup.
    pub properties: Vec<CreateProperty>,
    /// Optional property assignment applied only to inserted rows.
    pub on_create: Option<CreateProperty>,
    /// Optional property assignment applied only to matched rows.
    pub on_match: Option<CreateProperty>,
    /// Return slots in requested order.
    pub returns: Vec<CreateReturnBinding>,
}

/// What `LogicalMergeNode` holds.
pub struct LogicalMergeNodeView {
    pub node: BoundNodeView,
    pub properties: Seq<CreatePropertyView>,
    pub on_create: Option<CreatePropertyView>,
    pub on_match: Option<CreatePropertyView>,
    pub returns: Seq<CreateReturnBindingView>,
}

impl View for LogicalMergeNode {
    type V = LogicalMergeNodeView;

    open spec fn view(&self) -> LogicalMergeNodeView {
        LogicalMergeNodeView {
            node: self.node@,
            properties: views::views(self.properties@),
            on_create: views::some_view(self.on_create),
            on_match: views::some_view(self.on_match),
            returns: views::views(self.returns@),
        }
    }
}

/// Bound node property update.
#[derive(Debug, PartialEq, Eq)]
pub struct LogicalSetProperty {
    /// Matched node binding.
    pub node: BoundNode,
    /// Optional hydrated-row predicate selecting the row.
    pub predicate: Option<Predicate>,
    /// Source table column name to update.
    pub property: String,
    /// New property value.
    pub value: CreateValue,
    /// Return slots in requested order.
    pub returns: Vec<CreateReturnBinding>,
}

/// What `LogicalSetProperty` holds.
pub struct LogicalSetPropertyView {
    pub node: BoundNodeView,
    pub predicate: Option<PredicateView>,
    pub property: Seq<char>,
    pub value: CreateValueView,
    pub returns: Seq<CreateReturnBindingView>,
}

impl View for LogicalSetProperty {
    type V = LogicalSetPropertyView;

    open spec fn view(&self) -> LogicalSetPropertyView {
        LogicalSetPropertyView {
            node: self.node@,
            predicate: views::some_view(self.predicate),
            property: self.property@,
            value: self.value@,
            returns: views::views(self.returns@),
        }
    }
}

/// Bound node property removal.
#[derive(Debug, PartialEq, Eq)]
pub struct LogicalRemoveProperty {
    /// Matched node binding.
    pub node: BoundNode,
    /// Optional hydrated-row predicate selecting the row.
    pub predicate: Option<Predicate>,
    /// Source table column or registered JSONB property path to remove.
    pub property: String,
    /// Return slots in requested order.
    pub returns: Vec<CreateReturnBinding>,
}

/// What `LogicalRemoveProperty` holds.
pub struct LogicalRemovePropertyView {
    pub node: BoundNodeView,
    pub predicate: Option<PredicateView>,
    pub property: Seq<char>,
    pub returns: Seq<CreateReturnBindingView>,
}

impl View for LogicalRemoveProperty {
    type V = LogicalRemovePropertyView;

    open spec fn view(&self) -> LogicalRemovePropertyView {
        LogicalRemovePropertyView {
            node: self.node@,
            predicate: views::some_view(self.predicate),
            property: self.property@,
            returns: views::views(self.returns@),
        }
    }
}

/// Bound mapped edge deletion.
#[derive(Debug, PartialEq, Eq)]
pub struct LogicalDeleteEdge {
    /// Source node binding in the query pattern.
    pub source: BoundNode,
    /// Relationship binding.
    pub relationship: BoundRel,
    /// Relationship variable targeted by `DELETE`.
    pub rel_var: String,
    /// Target node binding in the query pattern.
    pub target: BoundNode,
    /// Registered edge row mapping.
    pub edge: BoundMappedEdge,
    /// Optional hydrated-row predicate selecting the relationship match.
    pub predicate: Option<Predicate>,
    /// Return slots in requested order.
    pub returns: Vec<ReturnBinding>,
}

/// What `LogicalDeleteEdge` holds.
pub struct LogicalDeleteEdgeView {
    pub source: BoundNodeView,
    pub relationship: BoundRelView,
    pub rel_var: Seq<char>,
    pub target: BoundNodeView,
    pub edge: BoundMappedEdgeView,
    pub predicate: Option<PredicateView>,
    pub returns: Seq<ReturnBindingView>,
}

impl View for LogicalDeleteEdge {
    type V = LogicalDeleteEdgeView;

    open spec fn view(&self) -> LogicalDeleteEdgeView {
        LogicalDeleteEdgeView {
            source: self.source@,
            relationship: self.relationship@,
            rel_var: self.rel_var@,
            target: self.target@,
            edge: self.edge@,
            predicate: views::some_view(self.predicate),
            returns: views::views(self.returns@),
        }
    }
}

/// Bound mapped node detach-delete.
#[derive(Debug, PartialEq, Eq)]
pub struct LogicalDetachDeleteNode {
    /// Matched node binding.
    pub node: BoundNode,
    /// Optional hydrated-row predicate selecting the row.
    pub predicate: Option<Predicate>,
    /// Registered edge-row mappings that may contain incident edges.
    pub incident_edges: Vec<BoundIncidentEdge>,
    /// Return slots in requested order.
    pub returns: Vec<CreateReturnBinding>,
}

/// What `LogicalDetachDeleteNode` holds.
pub struct LogicalDetachDeleteNodeView {
    pub node: BoundNodeView,
    pub predicate: Option<PredicateView>,
    pub incident_edges: Seq<BoundIncidentEdgeView>,
    pub returns: Seq<CreateReturnBindingView>,
}

impl View for LogicalDetachDeleteNode {
    type V = LogicalDetachDeleteNodeView;

    open spec fn view(&self) -> LogicalDetachDeleteNodeView {
        LogicalDetachDeleteNodeView {
            node: self.node@,
            predicate: views::some_view(self.predicate),
            incident_edges: views::views(self.incident_edges@),
            returns: views::views(self.returns@),
        }
    }
}

/// Bound logical statement.
#[derive(Debug, PartialEq, Eq)]
pub enum LogicalStatement {
    /// Read-only query.
    Read(LogicalPlan),
    /// Multi-pattern join query.
    JoinRead(LogicalJoinPlan),
    /// Wildcard path query.
    WildcardPathRead(LogicalWildcardPathPlan),
    /// Node-only read query.
    NodeScan(LogicalNodeScan),
    /// Node creation write.
    CreateNode(LogicalCreateNode),
    /// Mapped node property update.
    SetProperty(LogicalSetProperty),
    /// Mapped node property removal.
    RemoveProperty(LogicalRemoveProperty),
    /// Mapped edge row deletion.
    DeleteEdge(LogicalDeleteEdge),
    /// Mapped node detach-delete.
    DetachDeleteNode(LogicalDetachDeleteNode),
    /// Mapped node merge/upsert.
    MergeNode(LogicalMergeNode),
}

/// What `LogicalStatement` holds.
pub enum LogicalStatementView {
    Read(LogicalPlanView),
    JoinRead(LogicalJoinPlanView),
    WildcardPathRead(LogicalWildcardPathPlanView),
    NodeScan(LogicalNodeScanView),
    CreateNode(LogicalCreateNodeView),
    SetProperty(LogicalSetPropertyView),
    RemoveProperty(LogicalRemovePropertyView),
    DeleteEdge(LogicalDeleteEdgeView),
    DetachDeleteNode(LogicalDetachDeleteNodeView),
    MergeNode(LogicalMergeNodeView),
}

impl View for LogicalStatement {
    type V = LogicalStatementView;

    open spec fn view(&self) -> LogicalStatementView {
        match self {
            LogicalStatement::Read(inner) => LogicalStatementView::Read(inner@),
            LogicalStatement::JoinRead(inner) => LogicalStatementView::JoinRead(inner@),
            LogicalStatement::WildcardPathRead(inner) => LogicalStatementView::WildcardPathRead(inner@),
            LogicalStatement::NodeScan(inner) => LogicalStatementView::NodeScan(inner@),
            LogicalStatement::CreateNode(inner) => LogicalStatementView::CreateNode(inner@),
            LogicalStatement::SetProperty(inner) => LogicalStatementView::SetProperty(inner@),
            LogicalStatement::RemoveProperty(inner) => LogicalStatementView::RemoveProperty(inner@),
            LogicalStatement::DeleteEdge(inner) => LogicalStatementView::DeleteEdge(inner@),
            LogicalStatement::DetachDeleteNode(inner) => LogicalStatementView::DetachDeleteNode(inner@),
            LogicalStatement::MergeNode(inner) => LogicalStatementView::MergeNode(inner@),
        }
    }
}

} // verus!
