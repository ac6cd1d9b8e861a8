//! Physical plans executable against engine topology stores or PostgreSQL SPI.
use vstd::prelude::*;

use crate::query::logical_plan::{
    AggregateArg, AggregateArgView, AggregateFunc, BindingSide, BoundDirection, HopBounds, PathFunc,
    Predicate, PredicateView, Scalar, ScalarView, SortBinding, SortBindingView, TableLabel,
    TableLabelView,
};
use crate::query::names::NameSet;
use crate::views;

verus! {

/// Maximum GQL matches collected before sorting/projection.
pub const MAX_GQL_RESULT_ROWS: usize = 10_000;

/// Maximum unique keys a bounded DISTINCT operation may retain.
pub const MAX_GQL_DISTINCT_KEYS: usize = 10_000;

/// Physical return slot.
#[derive(Debug, Clone, PartialEq, Eq)]
pub enum ReturnSlot {
    /// Whole node value.
    Node { side: BindingSide, name: String },
    /// Whole relationship value.
    Relationship { name: String },
    /// Whole path value.
    Path { name: String },
    /// Path function value.
    PathFunction { func: PathFunc, name: String },
    /// Node property value.
    Property { side: BindingSide, property: String, name: String },
    /// Aggregate value.
    Aggregate { func: AggregateFunc, arg: AggregateArg, distinct: bool, name: String },
}

/// What `ReturnSlot` holds.
pub enum ReturnSlotView {
    Node { side: BindingSide, name: Seq<char> },
    Relationship { name: Seq<char> },
    Path { name: Seq<char> },
    PathFunction { func: PathFunc, name: Seq<char> },
    Property { side: BindingSide, property: Seq<char>, name: Seq<char> },
    Aggregate { func: AggregateFunc, arg: AggregateArgView, distinct: bool, name: Seq<char> },
}

impl View for ReturnSlot {
    type V = ReturnSlotView;

    open spec fn view(&self) -> ReturnSlotView {
        match self {
            ReturnSlot::Node { side, name } => ReturnSlotView::Node {
                side: *side,
                name: name@,
            },
            ReturnSlot::Relationship { name } => ReturnSlotView::Relationship {
                name: name@,
            },
            ReturnSlot::Path { name } => ReturnSlotView::Path {
                name: name@,
            },
            ReturnSlot::PathFunction { func, name } => ReturnSlotView::PathFunction {
                func: *func,
                name: name@,
            },
            ReturnSlot::Property { side, property, name } => ReturnSlotView::Property {
                side: *side,
                property: property@,
                name: name@,
            },
            ReturnSlot::Aggregate { func, arg, distinct, name } => ReturnSlotView::Aggregate {
                func: *func,
                arg: arg@,
                distinct: *distinct,
                name: name@,
            },
        }
    }
}

/// The output column name of a slot.
pub open spec fn slot_name(slot: ReturnSlotView) -> Seq<char> {
    match slot {
        ReturnSlotView::Node { name, .. } => name,
        ReturnSlotView::Relationship { name } => name,
        ReturnSlotView::Path { name } => name,
        ReturnSlotView::PathFunction { name, .. } => name,
        ReturnSlotView::Property { name, .. } => name,
        ReturnSlotView::Aggregate { name, .. } => name,
    }
}

impl ReturnSlot {
    /// Return the output column name.
    pub fn name(&self) -> (name: &str)
        ensures
            name@ == slot_name(self@),
    {
        match self {
            ReturnSlot::Node { name, .. } => name.as_str(),
            ReturnSlot::Relationship { name } => name.as_str(),
            ReturnSlot::Path { name } => name.as_str(),
            ReturnSlot::PathFunction { name, .. } => name.as_str(),
            ReturnSlot::Property { name, .. } => name.as_str(),
            ReturnSlot::Aggregate { name, .. } => name.as_str(),
        }
    }

    /// Return whether this slot contains an aggregate value.
    pub fn is_aggregate(&self) -> (aggregate: bool)
        ensures
            aggregate == (self@ is Aggregate),
    {
        match self {
            ReturnSlot::Aggregate { .. } => true,
            _ => false,
        }
    }
}

/// Whether slots hold an aggregate.
pub open spec fn any_aggregate_slot(slots: Seq<ReturnSlotView>) -> bool {
    exists|i: int| 0 <= i < slots.len() && (#[trigger] slots[i]) is Aggregate
}

/// Whether slots hold an aggregate.
pub fn has_aggregate_return(slots: &Vec<ReturnSlot>) -> (found: bool)
    ensures
        found == any_aggregate_slot(views::views(slots@)),
{
    let ghost all = views::views(slots@);
    for i in 0..slots.len()
        invariant
            all == views::views(slots@),
            forall|j: int| 0 <= j < i ==> !((#[trigger] all[j]) is Aggregate),
    {
        assert(all[i as int] == slots@[i as int]@);
        if slots[i].is_aggregate() {
            assert(all[i as int] is Aggregate);
            return true;
        }
    }
    false
}

/// Physical write value.
#[derive(Debug, Clone, PartialEq, Eq)]
pub enum CreateValueSlot {
    /// Literal scalar.
    Literal(Scalar),
    /// Query parameter by name.
    Param(String),
}

/// What `CreateValueSlot` holds.
pub enum CreateValueSlotView {
    Literal(ScalarView),
    Param(Seq<char>),
}

impl View for CreateValueSlot {
    type V = CreateValueSlotView;

    open spec fn view(&self) -> CreateValueSlotView {
        match self {
            CreateValueSlot::Literal(inner) => CreateValueSlotView::Literal(inner@),
            CreateValueSlot::Param(inner) => CreateValueSlotView::Param(inner@),
        }
    }
}

/// Physical property value for a write.
#[derive(Debug, Clone, PartialEq, Eq)]
pub struct CreatePropertySlot {
    /// Source table column name.
    pub property: String,
    /// Value expression.
    pub value: CreateValueSlot,
}

/// What `CreatePropertySlot` holds.
pub struct CreatePropertySlotView {
    pub property: Seq<char>,
    pub value: CreateValueSlotView,
}

impl View for CreatePropertySlot {
    type V = CreatePropertySlotView;

    open spec fn view(&self) -> CreatePropertySlotView {
        CreatePropertySlotView {
            property: self.property@,
            value: self.value@,
        }
    }
}

/// Physical return slot for writes of one node.
#[derive(Debug, Clone, PartialEq, Eq)]
pub enum CreateReturnSlot {
    /// Whole written node value.
    Node { name: String },
    /// Written node property value.
    Property { property: String, name: String },
}

/// What `CreateReturnSlot` holds.
pub enum CreateReturnSlotView {
    Node { name: Seq<char> },
    Property { property: Seq<char>, name: Seq<char> },
}

impl View for CreateReturnSlot {
    type V = CreateReturnSlotView;

    open spec fn view(&self) -> CreateReturnSlotView {
        match self {
            CreateReturnSlot::Node { name } => CreateReturnSlotView::Node {
                name: name@,
            },
            CreateReturnSlot::Property { property, name } => CreateReturnSlotView::Property {
                property: property@,
                name: name@,
            },
        }
    }
}

/// Single-relationship physical plan.
#[derive(Debug, PartialEq, Eq)]
pub struct PhysicalPlan {
    /// Whether unmatched source rows should be null-extended.
    pub optional: bool,
    /// Source node variable.
    pub source_var: String,
    /// Source table OID.
    pub source_table_oid: u32,
    /// Source label.
    pub source_label: String,
    /// Relationship type label.
    pub rel_type: String,
    /// Optional relationship variable.
    pub rel_var: Option<String>,
    /// Traversal direction.
    pub direction: BoundDirection,
    /// Hop bounds.
    pub hops: HopBounds,
    /// Target node variable.
    pub target_var: String,
    /// Target table OID.
    pub target_table_oid: u32,
    /// Target label.
    pub target_label: String,
    /// Return slots in requested order.
    pub returns: Vec<ReturnSlot>,
    /// Row-stream DISTINCT projection stages introduced by `WITH DISTINCT`.
    pub distinct_stages: Vec<Vec<ReturnSlot>>,
    /// Whether final projected rows should be deduplicated.
    pub distinct: bool,
    /// Optional hydrated-row predicate.
    pub predicate: Option<Predicate>,
    /// Sort keys in requested order.
    pub order_by: Vec<SortBinding>,
    /// Number of rows to skip after ordering.
    pub skip: Option<u64>,
    /// Maximum rows to return.
    pub limit: Option<u64>,
}

/// What `PhysicalPlan` holds.
pub struct PhysicalPlanView {
    pub optional: bool,
    pub source_var: Seq<char>,
    pub source_table_oid: u32,
    pub source_label: Seq<char>,
    pub rel_type: Seq<char>,
    pub rel_var: Option<Seq<char>>,
    pub direction: BoundDirection,
    pub hops: HopBounds,
    pub target_var: Seq<char>,
    pub target_table_oid: u32,
    pub target_label: Seq<char>,
    pub returns: Seq<ReturnSlotView>,
    pub distinct_stages: Seq<Seq<ReturnSlotView>>,
    pub distinct: bool,
    pub predicate: Option<PredicateView>,
    pub order_by: Seq<SortBindingView>,
    pub skip: Option<u64>,
    pub limit: Option<u64>,
}

impl View for PhysicalPlan {
    type V = PhysicalPlanView;

    open spec fn view(&self) -> PhysicalPlanView {
        PhysicalPlanView {
            optional: self.optional,
            source_var: self.source_var@,
            source_table_oid: self.source_table_oid,
            source_label: self.source_label@,
            rel_type: self.rel_type@,
            rel_var: views::some_view(self.rel_var),
            direction: self.direction,
            hops: self.hops,
            target_var: self.target_var@,
            target_table_oid: self.target_table_oid,
            target_label: self.target_label@,
            returns: views::views(self.returns@),
            distinct_stages: views::nested(self.distinct_stages@),
            distinct: self.distinct,
            predicate: views::some_view(self.predicate),
            order_by: views::views(self.order_by@),
            skip: self.skip,
            limit: self.limit,
        }
    }
}

/// Physical node-only scan plan.
#[derive(Debug, PartialEq, Eq)]
pub struct PhysicalNodeScan {
    /// Node variable.
    pub var: String,
    /// Source table OID.
    pub table_oid: u32,
    /// Source label.
    pub label: String,
    /// Return slots in requested order.
    pub returns: Vec<ReturnSlot>,
    /// Row-stream DISTINCT projection stages introduced by `WITH DISTINCT`.
    pub distinct_stages: Vec<Vec<ReturnSlot>>,
    /// Whether final projected rows should be deduplicated.
    pub distinct: bool,
    /// Optional hydrated-row predicate.
    pub predicate: Option<Predicate>,
    /// Sort keys in requested order.
    pub order_by: Vec<SortBinding>,
    /// Number of rows to skip after ordering.
    pub skip: Option<u64>,
    /// Maximum rows to return.
    pub limit: Option<u64>,
}

/// What `PhysicalNodeScan` holds.
pub struct PhysicalNodeScanView {
    pub var: Seq<char>,
    pub table_oid: u32,
    pub label: Seq<char>,
    pub returns: Seq<ReturnSlotView>,
    pub distinct_stages: Seq<Seq<ReturnSlotView>>,
    pub distinct: bool,
    pub predicate: Option<PredicateView>,
    pub order_by: Seq<SortBindingView>,
    pub skip: Option<u64>,
    pub limit: Option<u64>,
}

impl View for PhysicalNodeScan {
    type V = PhysicalNodeScanView;

    open spec fn view(&self) -> PhysicalNodeScanView {
        PhysicalNodeScanView {
            var: self.var@,
            table_oid: self.table_oid,
            label: self.label@,
            returns: views::views(self.returns@),
            distinct_stages: views::nested(self.distinct_stages@),
            distinct: self.distinct,
            predicate: views::some_view(self.predicate),
            order_by: views::views(self.order_by@),
            skip: self.skip,
            limit: self.limit,
        }
    }
}

/// Node slot of a physical join.
#[derive(Debug, Clone, PartialEq, Eq)]
pub struct PhysicalJoinNodeSlot {
    /// Variable name.
    pub var: String,
    /// Source table OID.
    pub table_oid: u32,
    /// Source label.
    pub label: String,
}

/// What `PhysicalJoinNodeSlot` holds.
pub struct PhysicalJoinNodeSlotView {
    pub var: Seq<char>,
    pub table_oid: u32,
    pub label: Seq<char>,
}

impl View for PhysicalJoinNodeSlot {
    type V = PhysicalJoinNodeSlotView;

    open spec fn view(&self) -> PhysicalJoinNodeSlotView {
        PhysicalJoinNodeSlotView {
            var: self.var@,
            table_oid: self.table_oid,
            label: self.label@,
        }
    }
}

/// One relationship of a physical join.
#[derive(Debug, Clone, PartialEq, Eq)]
pub struct PhysicalJoinPattern {
    /// Slot of the source node.
    pub source_slot: usize,
    /// Relationship type label.
    pub rel_type: String,
    /// Traversal direction.
    pub direction: BoundDirection,
    /// Slot of the target node.
    pub target_slot: usize,
}

/// What `PhysicalJoinPattern` holds.
pub struct PhysicalJoinPatternView {
    pub source_slot: usize,
    pub rel_type: Seq<char>,
    pub direction: BoundDirection,
    pub target_slot: usize,
}

impl View for PhysicalJoinPattern {
    type V = PhysicalJoinPatternView;

    open spec fn view(&self) -> PhysicalJoinPatternView {
        PhysicalJoinPatternView {
            source_slot: self.source_slot,
            rel_type: self.rel_type@,
            direction: self.direction,
            target_slot: self.target_slot,
        }
    }
}

/// Physical multi-pattern join plan.
#[derive(Debug, PartialEq, Eq)]
pub struct PhysicalJoinPlan {
    /// Node slots.
    pub node_slots: Vec<PhysicalJoinNodeSlot>,
    /// Patterns in query order.
    pub patterns: Vec<PhysicalJoinPattern>,
    /// Return slots in requested order.
    pub returns: Vec<ReturnSlot>,
    /// Whether final projected rows should be deduplicated.
    pub distinct: bool,
    /// Optional hydrated-row predicate.
    pub predicate: Option<Predicate>,
    /// Sort keys in requested order.
    pub order_by: Vec<SortBinding>,
    /// Table OIDs of the node slots.
    pub required_table_oids: Vec<u32>,
    /// Number of rows to skip after ordering.
    pub skip: Option<u64>,
    /// Maximum rows to return.
    pub limit: Option<u64>,
}

/// What `PhysicalJoinPlan` holds.
pub struct PhysicalJoinPlanView {
    pub node_slots: Seq<PhysicalJoinNodeSlotView>,
    pub patterns: Seq<PhysicalJoinPatternView>,
    pub returns: Seq<ReturnSlotView>,
    pub distinct: bool,
    pub predicate: Option<PredicateView>,
    pub order_by: Seq<SortBindingView>,
    pub required_table_oids: Seq<u32>,
    pub skip: Option<u64>,
    pub limit: Option<u64>,
}

impl View for PhysicalJoinPlan {
    type V = PhysicalJoinPlanView;

    open spec fn view(&self) -> PhysicalJoinPlanView {
        PhysicalJoinPlanView {
            node_slots: views::views(self.node_slots@),
            patterns: views::views(self.patterns@),
            returns: views::views(self.returns@),
            distinct: self.distinct,
            predicate: views::some_view(self.predicate),
            order_by: views::views(self.order_by@),
            required_table_oids: self.required_table_oids@,
            skip: self.skip,
            limit: self.limit,
        }
    }
}

/// One segment of a physical wildcard path.
#[derive(Debug, Clone, PartialEq, Eq)]
pub struct PhysicalWildcardPathSegment {
    /// Optional relationship variable.
    pub rel_var: Option<String>,
    /// Optional target variable.
    pub target_var: Option<String>,
    /// Traversal direction.
    pub direction: BoundDirection,
    /// Target table OID, where the target has a label.
    pub target_table_filter: Option<u32>,
    /// Relationship type, where the pattern has one.
    pub rel_type_filter: Option<String>,
    /// Hop bounds.
    pub hops: HopBounds,
}

/// What `PhysicalWildcardPathSegment` holds.
pub struct PhysicalWildcardPathSegmentView {
    pub rel_var: Option<Seq<char>>,
    pub target_var: Option<Seq<char>>,
    pub direction: BoundDirection,
    pub target_table_filter: Option<u32>,
    pub rel_type_filter: Option<Seq<char>>,
    pub hops: HopBounds,
}

impl View for PhysicalWildcardPathSegment {
    type V = PhysicalWildcardPathSegmentView;

    open spec fn view(&self) -> PhysicalWildcardPathSegmentView {
        PhysicalWildcardPathSegmentView {
            rel_var: views::some_view(self.rel_var),
            target_var: views::some_view(self.target_var),
            direction: self.direction,
            target_table_filter: self.target_table_filter,
            rel_type_filter: views::some_view(self.rel_type_filter),
            hops: self.hops,
        }
    }
}

/// Physical wildcard path plan.
#[derive(Debug, Clone, PartialEq, Eq)]
pub struct PhysicalWildcardPathPlan {
    /// Path variable.
    pub path_var: String,
    /// Optional source variable.
    pub source_var: Option<String>,
    /// Return slots in requested order.
    pub returns: Vec<ReturnSlot>,
    /// Source table OID, where the source has a label.
    pub source_table_filter: Option<u32>,
    /// Segments in query order.
    pub segments: Vec<PhysicalWildcardPathSegment>,
    /// OIDs of all node tables, ascending.
    pub required_node_table_oids: Vec<u32>,
    /// Labels of all node tables; of equal tables the later counts.
    pub table_labels: Vec<TableLabel>,
    /// All relationship types.
    pub rel_type_labels: NameSet,
    /// Number of rows to skip after ordering.
    pub skip: Option<u64>,
    /// Maximum rows to return.
    pub limit: Option<u64>,
}

/// What `PhysicalWildcardPathPlan` holds.
pub struct PhysicalWildcardPathPlanView {
    pub path_var: Seq<char>,
    pub source_var: Option<Seq<char>>,
    pub returns: Seq<ReturnSlotView>,
    pub source_table_filter: Option<u32>,
    pub segments: Seq<PhysicalWildcardPathSegmentView>,
    pub required_node_table_oids: Seq<u32>,
    pub table_labels: Seq<TableLabelView>,
    pub rel_type_labels: Seq<Seq<char>>,
    pub skip: Option<u64>,
    pub limit: Option<u64>,
}

impl View for PhysicalWildcardPathPlan {
    type V = PhysicalWildcardPathPlanView;

    open spec fn view(&self) -> PhysicalWildcardPathPlanView {
        PhysicalWildcardPathPlanView {
            path_var: self.path_var@,
            source_var: views::some_view(self.source_var),
            returns: views::views(self.returns@),
            source_table_filter: self.source_table_filter,
            segments: views::views(self.segments@),
            required_node_table_oids: self.required_node_table_oids@,
            table_labels: views::views(self.table_labels@),
            rel_type_labels: self.rel_type_labels@,
            skip: self.skip,
            limit: self.limit,
        }
    }
}

/// Physical node creation plan.
#[derive(Debug, Clone, PartialEq, Eq)]
pub struct PhysicalCreateNode {
    /// Created node variable.
    pub var: String,
    /// Source table OID.
    pub table_oid: u32,
    /// Source label.
    pub label: String,
    /// Property values to insert into PostgreSQL.
    pub properties: Vec<CreatePropertySlot>,
    /// Return slots in requested order.
    pub returns: Vec<CreateReturnSlot>,
}

/// What `PhysicalCreateNode` holds.
pub struct PhysicalCreateNodeView {
    pub var: Seq<char>,
    pub table_oid: u32,
    pub label: Seq<char>,
    pub properties: Seq<CreatePropertySlotView>,
    pub returns: Seq<CreateReturnSlotView>,
}

impl View for PhysicalCreateNode {
    type V = PhysicalCreateNodeView;

    open spec fn view(&self) -> PhysicalCreateNodeView {
        PhysicalCreateNodeView {
            var: self.var@,
            table_oid: self.table_oid,
            label: self.label@,
            properties: views::views(self.properties@),
            returns: views::views(self.returns@),
        }
    }
}

/// Physical node merge plan.
#[derive(Debug, Clone, PartialEq, Eq)]
pub struct PhysicalMergeNode {
    /// Merged node variable.
    pub var: String,
    /// Source table OID.
    pub table_oid: u32,
    /// Source label.
    pub label: String,
    /// Property values used for the insert branch and identity lookup.
    pub properties: Vec<CreatePropertySlot>,
    /// Optional property assignment applied only to inserted rows.
    pub on_create: Option<CreatePropertySlot>,
    /// Optional property assignment applied only to matched rows.
    pub on_match: Option<CreatePropertySlot>,
    /// Return slots in requested order.
    pub returns: Vec<CreateReturnSlot>,
}

/// What `PhysicalMergeNode` holds.
pub struct PhysicalMergeNodeView {
    pub var: Seq<char>,
    pub table_oid: u32,
    pub label: Seq<char>,
    pub properties: Seq<CreatePropertySlotView>,
    pub on_create: Option<CreatePropertySlotView>,
    pub on_match: Option<CreatePropertySlotView>,
    pub returns: Seq<CreateReturnSlotView>,
}

impl View for PhysicalMergeNode {
    type V = PhysicalMergeNodeView;

    open spec fn view(&self) -> PhysicalMergeNodeView {
        PhysicalMergeNodeView {
            var: self.var@,
            table_oid: self.table_oid,
            label: self.label@,
            properties: views::views(self.properties@),
            on_create: views::some_view(self.on_create),
            on_match: views::some_view(self.on_match),
            returns: views::views(self.returns@),
        }
    }
}

/// Physical node property update plan.
#[derive(Debug, PartialEq, Eq)]
pub struct PhysicalSetProperty {
    /// Matched node variable.
    pub var: String,
    /// Source table OID.
    pub table_oid: u32,
    /// Source label.
    pub label: String,
    /// Optional hydrated-row predicate selecting the row.
    pub predicate: Option<Predicate>,
    /// Source table column name to update.
    pub property: String,
    /// New property value.
    pub value: CreateValueSlot,
    /// Return slots in requested order.
    pub returns: Vec<CreateReturnSlot>,
}

/// What `PhysicalSetProperty` holds.
pub struct PhysicalSetPropertyView {
    pub var: Seq<char>,
    pub table_oid: u32,
    pub label: Seq<char>,
    pub predicate: Option<PredicateView>,
    pub property: Seq<char>,
    pub value: CreateValueSlotView,
    pub returns: Seq<CreateReturnSlotView>,
}

impl View for PhysicalSetProperty {
    type V = PhysicalSetPropertyView;

    open spec fn view(&self) -> PhysicalSetPropertyView {
        PhysicalSetPropertyView {
            var: self.var@,
            table_oid: self.table_oid,
            label: self.label@,
            predicate: views::some_view(self.predicate),
            property: self.property@,
            value: self.value@,
            returns: views::views(self.returns@),
        }
    }
}

/// Physical node property removal plan.
#[derive(Debug, PartialEq, Eq)]
pub struct PhysicalRemoveProperty {
    /// Matched node variable.
    pub var: String,
    /// Source table OID.
    pub table_oid: u32,
    /// Source label.
    pub label: String,
    /// Optional hydrated-row predicate selecting the row.
    pub predicate: Option<Predicate>,
    /// Source table column or JSONB property path to remove.
    pub property: String,
    /// Return slots in requested order.
    pub returns: Vec<CreateReturnSlot>,
}

/// What `PhysicalRemoveProperty` holds.
pub struct PhysicalRemovePropertyView {
    pub var: Seq<char>,
    pub table_oid: u32,
    pub label: Seq<char>,
    pub predicate: Option<PredicateView>,
    pub property: Seq<char>,
    pub returns: Seq<CreateReturnSlotView>,
}

impl View for PhysicalRemoveProperty {
    type V = PhysicalRemovePropertyView;

    open spec fn view(&self) -> PhysicalRemovePropertyView {
        PhysicalRemovePropertyView {
            var: self.var@,
            table_oid: self.table_oid,
            label: self.label@,
            predicate: views::some_view(self.predicate),
            property: self.property@,
            returns: views::views(self.returns@),
        }
    }
}

/// Physical mapped edge row deletion plan.
#[derive(Debug, PartialEq, Eq)]
pub struct PhysicalDeleteEdge {
    /// Source node variable.
    pub source_var: String,
    /// Source table OID in the query pattern.
    pub source_table_oid: u32,
    /// Source label.
    pub source_label: String,
    /// Relationship type label.
    pub rel_type: String,
    /// Relationship variable.
    pub rel_var: String,
    /// Traversal direction.
    pub direction: BoundDirection,
    /// Target node variable.
    pub target_var: String,
    /// Target table OID in the query pattern.
    pub target_table_oid: u32,
    /// Target label.
    pub target_label: String,
    /// Registered edge row table OID.
    pub edge_table_oid: u32,
    /// Registered source node table OID.
    pub edge_source_table_oid: u32,
    /// Registered target node table OID.
    pub edge_target_table_oid: u32,
    /// Edge row source key column.
    pub source_column: String,
    /// Edge row target key column.
    pub target_column: String,
    /// Whether the edge row is registered bidirectionally.
    pub bidirectional: bool,
    /// Optional hydrated-row predicate.
    pub predicate: Option<Predicate>,
    /// Return slots in requested order.
    pub returns: Vec<ReturnSlot>,
}

/// What `PhysicalDeleteEdge` holds.
pub struct PhysicalDeleteEdgeView {
    pub source_var: Seq<char>,
    pub source_table_oid: u32,
    pub source_label: Seq<char>,
    pub rel_type: Seq<char>,
    pub rel_var: Seq<char>,
    pub direction: BoundDirection,
    pub target_var: Seq<char>,
    pub target_table_oid: u32,
    pub target_label: Seq<char>,
    pub edge_table_oid: u32,
    pub edge_source_table_oid: u32,
    pub edge_target_table_oid: u32,
    pub source_column: Seq<char>,
    pub target_column: Seq<char>,
    pub bidirectional: bool,
    pub predicate: Option<PredicateView>,
    pub returns: Seq<ReturnSlotView>,
}

impl View for PhysicalDeleteEdge {
    type V = PhysicalDeleteEdgeView;

    open spec fn view(&self) -> PhysicalDeleteEdgeView {
        PhysicalDeleteEdgeView {
            source_var: self.source_var@,
            source_table_oid: self.source_table_oid,
            source_label: self.source_label@,
            rel_type: self.rel_type@,
            rel_var: self.rel_var@,
            direction: self.direction,
            target_var: self.target_var@,
            target_table_oid: self.target_table_oid,
            target_label: self.target_label@,
            edge_table_oid: self.edge_table_oid,
            edge_source_table_oid: self.edge_source_table_oid,
            edge_target_table_oid: self.edge_target_table_oid,
            source_column: self.source_column@,
            target_column: self.target_column@,
            bidirectional: self.bidirectional,
            predicate: views::some_view(self.predicate),
            returns: views::views(self.returns@),
        }
    }
}

/// Incident edge rows of a physical detach-delete.
#[derive(Debug, Clone, PartialEq, Eq)]
pub struct PhysicalIncidentEdge {
    /// Relationship type label.
    pub rel_type: String,
    /// Registered edge row table OID.
    pub edge_table_oid: u32,
    /// Registered source node table OID.
    pub edge_source_table_oid: u32,
    /// Registered target node table OID.
    pub edge_target_table_oid: u32,
    /// Edge row source key column.
    pub source_column: String,
    /// Edge row target key column.
    pub target_column: String,
    /// Whether the edge row is registered bidirectionally.
    pub bidirectional: bool,
}

/// What `PhysicalIncidentEdge` holds.
pub struct PhysicalIncidentEdgeView {
    pub rel_type: Seq<char>,
    pub edge_table_oid: u32,
    pub edge_source_table_oid: u32,
    pub edge_target_table_oid: u32,
    pub source_column: Seq<char>,
    pub target_column: Seq<char>,
    pub bidirectional: bool,
}

impl View for PhysicalIncidentEdge {
    type V = PhysicalIncidentEdgeView;

    open spec fn view(&self) -> PhysicalIncidentEdgeView {
        PhysicalIncidentEdgeView {
            rel_type: self.rel_type@,
            edge_table_oid: self.edge_table_oid,
            edge_source_table_oid: self.edge_source_table_oid,
            edge_target_table_oid: self.edge_target_table_oid,
            source_column: self.source_column@,
            target_column: self.target_column@,
            bidirectional: self.bidirectional,
        }
    }
}

/// Physical node detach-delete plan.
#[derive(Debug, PartialEq, Eq)]
pub struct PhysicalDetachDeleteNode {
    /// Matched node variable.
    pub var: String,
    /// Source table OID.
    pub table_oid: u32,
    /// Source label.
    pub label: String,
    /// Optional hydrated-row predicate selecting the row.
    pub predicate: Option<Predicate>,
    /// Incident edge rows to delete first.
    pub incident_edges: Vec<PhysicalIncidentEdge>,
    /// Return slots in requested order.
    pub returns: Vec<CreateReturnSlot>,
}

/// What `PhysicalDetachDeleteNode` holds.
pub struct PhysicalDetachDeleteNodeView {
    pub var: Seq<char>,
    pub table_oid: u32,
    pub label: Seq<char>,
    pub predicate: Option<PredicateView>,
    pub incident_edges: Seq<PhysicalIncidentEdgeView>,
    pub returns: Seq<CreateReturnSlotView>,
}

impl View for PhysicalDetachDeleteNode {
    type V = PhysicalDetachDeleteNodeView;

    open spec fn view(&self) -> PhysicalDetachDeleteNodeView {
        PhysicalDetachDeleteNodeView {
            var: self.var@,
            table_oid: self.table_oid,
            label: self.label@,
            predicate: views::some_view(self.predicate),
            incident_edges: views::views(self.incident_edges@),
            returns: views::views(self.returns@),
        }
    }
}

/// Physical GQL statement.
#[derive(Debug, PartialEq, Eq)]
pub enum PhysicalStatement {
    /// Read-only topology query.
    Read(PhysicalPlan),
    /// Multi-pattern join query.
    JoinRead(PhysicalJoinPlan),
    /// Wildcard path query.
    WildcardPathRead(PhysicalWildcardPathPlan),
    /// Node-only read query.
    NodeScan(PhysicalNodeScan),
    /// PostgreSQL-backed node creation.
    CreateNode(PhysicalCreateNode),
    /// PostgreSQL-backed node property update.
    SetProperty(PhysicalSetProperty),
    /// PostgreSQL-backed node property removal.
    RemoveProperty(PhysicalRemoveProperty),
    /// PostgreSQL-backed edge row deletion.
    DeleteEdge(PhysicalDeleteEdge),
    /// PostgreSQL-backed node detach-delete.
    DetachDeleteNode(PhysicalDetachDeleteNode),
    /// PostgreSQL-backed node merge.
    MergeNode(PhysicalMergeNode),
}

/// What `PhysicalStatement` holds.
pub enum PhysicalStatementView {
    Read(PhysicalPlanView),
    JoinRead(PhysicalJoinPlanView),
    WildcardPathRead(PhysicalWildcardPathPlanView),
    NodeScan(PhysicalNodeScanView),
    CreateNode(PhysicalCreateNodeView),
    SetProperty(PhysicalSetPropertyView),
    RemoveProperty(PhysicalRemovePropertyView),
    DeleteEdge(PhysicalDeleteEdgeView),
    DetachDeleteNode(PhysicalDetachDeleteNodeView),
    MergeNode(PhysicalMergeNodeView),
}

impl View for PhysicalStatement {
    type V = PhysicalStatementView;

    open spec fn view(&self) -> PhysicalStatementView {
        match self {
            PhysicalStatement::Read(inner) => PhysicalStatementView::Read(inner@),
            PhysicalStatement::JoinRead(inner) => PhysicalStatementView::JoinRead(inner@),
            PhysicalStatement::WildcardPathRead(inner) => PhysicalStatementView::WildcardPathRead(inner@),
            PhysicalStatement::NodeScan(inner) => PhysicalStatementView::NodeScan(inner@),
            PhysicalStatement::CreateNode(inner) => PhysicalStatementView::CreateNode(inner@),
            PhysicalStatement::SetProperty(inner) => PhysicalStatementView::SetProperty(inner@),
            PhysicalStatement::RemoveProperty(inner) => PhysicalStatementView::RemoveProperty(inner@),
            PhysicalStatement::DeleteEdge(inner) => PhysicalStatementView::DeleteEdge(inner@),
            PhysicalStatement::DetachDeleteNode(inner) => PhysicalStatementView::DetachDeleteNode(inner@),
            PhysicalStatement::MergeNode(inner) => PhysicalStatementView::MergeNode(inner@),
        }
    }
}

// ---------------------------------------------------------------------------
// Caps
// ---------------------------------------------------------------------------

/// The shape of a plan, as far as its row cap depends on it.
pub struct RowShape {
    /// Whether rows are deduplicated or aggregated before they are returned.
    pub grouped: bool,
    /// Whether rows are ordered.
    pub ordered: bool,
    /// Whether rows are filtered.
    pub filtered: bool,
    /// Number of rows to skip.
    pub skip: Option<u64>,
    /// Maximum rows to return.
    pub limit: Option<u64>,
}

/// The number of matches that a plan collects: its row window, where each match is
/// a row, and else the greatest number.
pub open spec fn row_cap(shape: RowShape) -> usize {
    match shape.limit {
        Some(limit) => if shape.grouped || shape.ordered || shape.filtered {
            MAX_GQL_RESULT_ROWS
        } else {
            let skip = match shape.skip {
                Some(skip) => skip as int,
                None => 0,
            };
            if skip + limit < MAX_GQL_RESULT_ROWS {
                (skip + limit) as usize
            } else {
                MAX_GQL_RESULT_ROWS
            }
        },
        None => MAX_GQL_RESULT_ROWS,
    }
}

/// Whether the result would be incomplete if a plan reaches its cap.
pub open spec fn cap_is_error(shape: RowShape) -> bool {
    shape.grouped || shape.ordered || shape.filtered || shape.limit is None
}

fn row_cap_of(shape: &RowShape) -> (cap: usize)
    ensures
        cap == row_cap(*shape),
{
    if shape.grouped || shape.ordered || shape.filtered {
        return MAX_GQL_RESULT_ROWS;
    }
    match shape.limit {
        Some(limit) => {
            let skip: u64 = match shape.skip {
                Some(skip) => skip,
                None => 0,
            };
            let requested: u64 = skip.saturating_add(limit);
            if requested < MAX_GQL_RESULT_ROWS as u64 {
                requested as usize
            } else {
                MAX_GQL_RESULT_ROWS
            }
        },
        None => MAX_GQL_RESULT_ROWS,
    }
}

impl PhysicalPlanView {
    /// The shape of the plan.
    pub open spec fn row_shape(self) -> RowShape {
        RowShape {
            grouped: self.distinct || self.distinct_stages.len() > 0 || any_aggregate_slot(self.returns),
            ordered: self.order_by.len() > 0,
            filtered: self.predicate is Some,
            skip: self.skip,
            limit: self.limit,
        }
    }
}

impl PhysicalPlan {
    fn row_shape(&self) -> (shape: RowShape)
        ensures
            shape == self@.row_shape(),
    {
        RowShape {
            grouped: self.distinct || self.distinct_stages.len() > 0 || has_aggregate_return(&self.returns),
            ordered: self.order_by.len() > 0,
            filtered: self.predicate.is_some(),
            skip: self.skip,
            limit: self.limit,
        }
    }

    /// Maximum matches the executor should collect for this plan.
    pub fn execution_row_cap(&self) -> (cap: usize)
        ensures
            cap == row_cap(self@.row_shape()),
    {
        row_cap_of(&self.row_shape())
    }

    /// Whether hitting the execution cap means results would be incomplete.
    pub fn cap_exhaustion_is_error(&self) -> (error: bool)
        ensures
            error == cap_is_error(self@.row_shape()),
    {
        let shape: RowShape = self.row_shape();
        shape.grouped || shape.ordered || shape.filtered || shape.limit.is_none()
    }
}

impl PhysicalNodeScanView {
    /// The shape of the plan.
    pub open spec fn row_shape(self) -> RowShape {
        RowShape {
            grouped: self.distinct || self.distinct_stages.len() > 0 || any_aggregate_slot(self.returns),
            ordered: self.order_by.len() > 0,
            filtered: self.predicate is Some,
            skip: self.skip,
            limit: self.limit,
        }
    }
}

impl PhysicalNodeScan {
    fn row_shape(&self) -> (shape: RowShape)
        ensures
            shape == self@.row_shape(),
    {
        RowShape {
            grouped: self.distinct || self.distinct_stages.len() > 0 || has_aggregate_return(&self.returns),
            ordered: self.order_by.len() > 0,
            filtered: self.predicate.is_some(),
            skip: self.skip,
            limit: self.limit,
        }
    }

    /// Maximum matches the executor should collect for this plan.
    pub fn execution_row_cap(&self) -> (cap: usize)
        ensures
            cap == row_cap(self@.row_shape()),
    {
        row_cap_of(&self.row_shape())
    }

    /// Whether hitting the execution cap means results would be incomplete.
    pub fn cap_exhaustion_is_error(&self) -> (error: bool)
        ensures
            error == cap_is_error(self@.row_shape()),
    {
        let shape: RowShape = self.row_shape();
        shape.grouped || shape.ordered || shape.filtered || shape.limit.is_none()
    }
}

impl PhysicalJoinPlanView {
    /// The shape of the plan.
    pub open spec fn row_shape(self) -> RowShape {
        RowShape {
            grouped: self.distinct || any_aggregate_slot(self.returns),
            ordered: self.order_by.len() > 0,
            filtered: self.predicate is Some,
            skip: self.skip,
            limit: self.limit,
        }
    }
}

impl PhysicalJoinPlan {
    fn row_shape(&self) -> (shape: RowShape)
        ensures
            shape == self@.row_shape(),
    {
        RowShape {
            grouped: self.distinct || has_aggregate_return(&self.returns),
            ordered: self.order_by.len() > 0,
            filtered: self.predicate.is_some(),
            skip: self.skip,
            limit: self.limit,
        }
    }

    /// Maximum matches the executor should collect for this plan.
    pub fn execution_row_cap(&self) -> (cap: usize)
        ensures
            cap == row_cap(self@.row_shape()),
    {
        row_cap_of(&self.row_shape())
    }

    /// Whether hitting the execution cap means results would be incomplete.
    pub fn cap_exhaustion_is_error(&self) -> (error: bool)
        ensures
            error == cap_is_error(self@.row_shape()),
    {
        let shape: RowShape = self.row_shape();
        shape.grouped || shape.ordered || shape.filtered || shape.limit.is_none()
    }
}

impl PhysicalWildcardPathPlanView {
    /// The shape of the plan.
    pub open spec fn row_shape(self) -> RowShape {
        RowShape {
            grouped: any_aggregate_slot(self.returns),
            ordered: false,
            filtered: false,
            skip: self.skip,
            limit: self.limit,
        }
    }
}

impl PhysicalWildcardPathPlan {
    fn row_shape(&self) -> (shape: RowShape)
        ensures
            shape == self@.row_shape(),
    {
        RowShape {
            grouped: has_aggregate_return(&self.returns),
            ordered: false,
            filtered: false,
            skip: self.skip,
            limit: self.limit,
        }
    }

    /// Maximum matches the executor should collect for this plan.
    pub fn execution_row_cap(&self) -> (cap: usize)
        ensures
            cap == row_cap(self@.row_shape()),
    {
        row_cap_of(&self.row_shape())
    }

    /// Whether hitting the execution cap means results would be incomplete.
    pub fn cap_exhaustion_is_error(&self) -> (error: bool)
        ensures
            error == cap_is_error(self@.row_shape()),
    {
        let shape: RowShape = self.row_shape();
        shape.grouped || shape.ordered || shape.filtered || shape.limit.is_none()
    }
}

impl PhysicalPlan {
    /// Table OIDs whose rows must be visible to the current SQL role.
    pub fn required_table_oids(&self) -> (oids: [u32; 2])
        ensures
            oids@ == seq![self@.source_table_oid, self@.target_table_oid],
    {
        [self.source_table_oid, self.target_table_oid]
    }
}

impl PhysicalDeleteEdge {
    /// Table OIDs whose node rows must be visible to the current SQL role.
    pub fn required_node_table_oids(&self) -> (oids: [u32; 2])
        ensures
            oids@ == seq![self@.source_table_oid, self@.target_table_oid],
    {
        [self.source_table_oid, self.target_table_oid]
    }

    /// Edge row table OID whose row will be deleted.
    pub fn required_edge_table_oid(&self) -> (oid: u32)
        ensures
            oid == self@.edge_table_oid,
    {
        self.edge_table_oid
    }
}

impl PhysicalCreateNode {
    /// Table OID whose rows will be inserted.
    pub fn required_table_oid(&self) -> (oid: u32)
        ensures
            oid == self@.table_oid,
    {
        self.table_oid
    }
}

impl PhysicalSetProperty {
    /// Table OID whose row will be updated.
    pub fn required_table_oid(&self) -> (oid: u32)
        ensures
            oid == self@.table_oid,
    {
        self.table_oid
    }
}

impl PhysicalNodeScan {
    /// Table OID whose rows must be visible to the current SQL role.
    pub fn required_table_oid(&self) -> (oid: u32)
        ensures
            oid == self@.table_oid,
    {
        self.table_oid
    }
}

// ---------------------------------------------------------------------------
// Laws
// ---------------------------------------------------------------------------

/// A plan never collects more matches than the greatest number, and where reaching
/// its cap is no error, its cap covers its whole row window.
pub proof fn lemma_cap_covers_window(shape: RowShape)
    ensures
        row_cap(shape) <= MAX_GQL_RESULT_ROWS,
        !cap_is_error(shape) ==> shape.limit is Some && (row_cap(shape) == MAX_GQL_RESULT_ROWS
            || row_cap(shape) == shape.limit->0 + (match shape.skip {
            Some(skip) => skip as int,
            None => 0,
        })),
{
}

} // verus!
