//! Lowering from logical GQL plans to executable physical plans.
use vstd::prelude::*;

use crate::query::logical_plan::{
    self, literal_value_json, BoundIncidentEdge, BoundIncidentEdgeView, CreateProperty,
    CreatePropertyView, CreateReturnBinding, CreateReturnBindingView, CreateValue, CreateValueView,
    HopBounds, LogicalCreateNode, LogicalCreateNodeView, LogicalDeleteEdge, LogicalDeleteEdgeView,
    LogicalDetachDeleteNode, LogicalDetachDeleteNodeView, LogicalJoinNodeSlot,
    LogicalJoinNodeSlotView, LogicalJoinPattern, LogicalJoinPatternView, LogicalJoinPlan,
    LogicalJoinPlanView, LogicalMergeNode, LogicalMergeNodeView, LogicalNodeScan,
    LogicalNodeScanView, LogicalPlan, LogicalPlanView, LogicalRemoveProperty,
    LogicalRemovePropertyView, LogicalSetProperty, LogicalSetPropertyView, LogicalStatement,
    LogicalStatementView, LogicalWildcardPathPlan, LogicalWildcardPathPlanView,
    LogicalWildcardPathSegment, LogicalWildcardPathSegmentView, ReturnBinding, ReturnBindingView,
};
use crate::query::physical_plan::{
    CreatePropertySlot, CreatePropertySlotView, CreateReturnSlot, CreateReturnSlotView,
    CreateValueSlot, CreateValueSlotView, PhysicalCreateNode, PhysicalCreateNodeView,
    PhysicalDeleteEdge, PhysicalDeleteEdgeView, PhysicalDetachDeleteNode,
    PhysicalDetachDeleteNodeView, PhysicalIncidentEdge, PhysicalIncidentEdgeView,
    PhysicalJoinNodeSlot, PhysicalJoinNodeSlotView, PhysicalJoinPattern, PhysicalJoinPatternView,
    PhysicalJoinPlan, PhysicalJoinPlanView, PhysicalMergeNode, PhysicalMergeNodeView,
    PhysicalNodeScan, PhysicalNodeScanView, PhysicalPlan, PhysicalPlanView, PhysicalRemoveProperty,
    PhysicalRemovePropertyView, PhysicalSetProperty, PhysicalSetPropertyView, PhysicalStatement,
    PhysicalStatementView, PhysicalWildcardPathPlan, PhysicalWildcardPathPlanView,
    PhysicalWildcardPathSegment, PhysicalWildcardPathSegmentView, ReturnSlot, ReturnSlotView,
};
use crate::views;

verus! {

/// The slot of a return binding.
pub open spec fn return_slot(item: ReturnBindingView) -> ReturnSlotView {
    match item {
        ReturnBindingView::Node { side, name } => ReturnSlotView::Node { side, name },
        ReturnBindingView::Relationship { name } => ReturnSlotView::Relationship { name },
        ReturnBindingView::Path { name } => ReturnSlotView::Path { name },
        ReturnBindingView::PathFunction { func, name } => ReturnSlotView::PathFunction { func, name },
        ReturnBindingView::Property { side, property, name } => ReturnSlotView::Property { side, property, name },
        ReturnBindingView::Aggregate { func, arg, distinct, name } => ReturnSlotView::Aggregate { func, arg, distinct, name },
    }
}

fn lower_return(item: ReturnBinding) -> (slot: ReturnSlot)
    ensures
        slot@ == return_slot(item@),
{
    match item {
        ReturnBinding::Node { side, name } => ReturnSlot::Node { side, name },
        ReturnBinding::Relationship { name } => ReturnSlot::Relationship { name },
        ReturnBinding::Path { name } => ReturnSlot::Path { name },
        ReturnBinding::PathFunction { func, name } => ReturnSlot::PathFunction { func, name },
        ReturnBinding::Property { side, property, name } => ReturnSlot::Property { side, property, name },
        ReturnBinding::Aggregate { func, arg, distinct, name } => ReturnSlot::Aggregate { func, arg, distinct, name },
    }
}

/// The slots of return bindings.
pub open spec fn return_slots(items: Seq<ReturnBindingView>) -> Seq<ReturnSlotView> {
    items.map_values(|item: ReturnBindingView| return_slot(item))
}

/// The slots of return bindings.
pub fn lower_returns(items: Vec<ReturnBinding>) -> (slots: Vec<ReturnSlot>)
    ensures
        views::views(slots@) == return_slots(views::views(items@)),
{
    let mut slots: Vec<ReturnSlot> = Vec::new();
    let ghost all = return_slots(views::views(items@));
    for item in iter: items
        invariant
            iter.seq() == items@,
            all == return_slots(views::views(items@)),
            views::views(slots@) == all.take(iter.index() as int),
    {
        let ghost i = iter.index() as int;
        let ghost earlier = slots@;
        let slot: ReturnSlot = lower_return(item);
        slots.push(slot);
        proof {
            views::lemma_push(earlier, slot);
            assert(views::views(items@)[i] == item@);
            assert(all.take(i + 1) =~= all.take(i).push(slot@));
        }
    }
    assert(all.take(all.len() as int) =~= all);
    slots
}

/// The slots of stages.
pub open spec fn stage_slots(stages: Seq<Seq<ReturnBindingView>>) -> Seq<Seq<ReturnSlotView>> {
    stages.map_values(|stage: Seq<ReturnBindingView>| return_slots(stage))
}

/// The slots of stages.
pub fn lower_return_stages(stages: Vec<Vec<ReturnBinding>>) -> (slots: Vec<Vec<ReturnSlot>>)
    ensures
        views::nested(slots@) == stage_slots(views::nested(stages@)),
{
    let mut slots: Vec<Vec<ReturnSlot>> = Vec::new();
    let ghost all = stage_slots(views::nested(stages@));
    for stage in iter: stages
        invariant
            iter.seq() == stages@,
            all == stage_slots(views::nested(stages@)),
            views::nested(slots@) == all.take(iter.index() as int),
    {
        let ghost i = iter.index() as int;
        let ghost earlier = slots@;
        let lowered: Vec<ReturnSlot> = lower_returns(stage);
        slots.push(lowered);
        proof {
            views::lemma_push_nested(earlier, lowered);
            assert(views::nested(stages@)[i] == views::views(stage@));
            assert(all.take(i + 1) =~= all.take(i).push(views::views(lowered@)));
        }
    }
    assert(all.take(all.len() as int) =~= all);
    slots
}

/// The slot of a return binding of a write.
pub open spec fn create_return_slot(item: CreateReturnBindingView) -> CreateReturnSlotView {
    match item {
        CreateReturnBindingView::Node { name } => CreateReturnSlotView::Node { name },
        CreateReturnBindingView::Property { property, name } => CreateReturnSlotView::Property { property, name },
    }
}

fn lower_create_return(item: CreateReturnBinding) -> (slot: CreateReturnSlot)
    ensures
        slot@ == create_return_slot(item@),
{
    match item {
        CreateReturnBinding::Node { name } => CreateReturnSlot::Node { name },
        CreateReturnBinding::Property { property, name } => CreateReturnSlot::Property { property, name },
    }
}

/// The slots of return bindings of a write.
pub open spec fn create_return_slots(items: Seq<CreateReturnBindingView>) -> Seq<CreateReturnSlotView> {
    items.map_values(|item: CreateReturnBindingView| create_return_slot(item))
}

/// The slots of return bindings of a write.
pub fn lower_create_returns(items: Vec<CreateReturnBinding>) -> (slots: Vec<CreateReturnSlot>)
    ensures
        views::views(slots@) == create_return_slots(views::views(items@)),
{
    let mut slots: Vec<CreateReturnSlot> = Vec::new();
    let ghost all = create_return_slots(views::views(items@));
    for item in iter: items
        invariant
            iter.seq() == items@,
            all == create_return_slots(views::views(items@)),
            views::views(slots@) == all.take(iter.index() as int),
    {
        let ghost i = iter.index() as int;
        let ghost earlier = slots@;
        let slot: CreateReturnSlot = lower_create_return(item);
        slots.push(slot);
        proof {
            views::lemma_push(earlier, slot);
            assert(views::views(items@)[i] == item@);
            assert(all.take(i + 1) =~= all.take(i).push(slot@));
        }
    }
    assert(all.take(all.len() as int) =~= all);
    slots
}

/// The slot of a written value.
pub open spec fn value_slot(value: CreateValueView) -> CreateValueSlotView {
    match value {
        CreateValueView::Literal(literal) => CreateValueSlotView::Literal(
            logical_plan::literal_scalar(literal),
        ),
        CreateValueView::Param(name) => CreateValueSlotView::Param(name),
    }
}

/// The slot of a written value.
pub fn lower_create_value(value: CreateValue) -> (slot: CreateValueSlot)
    ensures
        slot@ == value_slot(value@),
{
    match value {
        CreateValue::Literal(literal) => CreateValueSlot::Literal(literal_value_json(&literal)),
        CreateValue::Param(name) => CreateValueSlot::Param(name),
    }
}

/// The slot of a written property.
pub open spec fn property_slot(item: CreatePropertyView) -> CreatePropertySlotView {
    CreatePropertySlotView { property: item.property, value: value_slot(item.value) }
}

/// The slot of a written property.
pub fn lower_create_property(item: CreateProperty) -> (slot: CreatePropertySlot)
    ensures
        slot@ == property_slot(item@),
{
    CreatePropertySlot { property: item.property, value: lower_create_value(item.value) }
}

/// The slot of an optional written property.
pub open spec fn optional_property_slot(item: Option<CreatePropertyView>) -> Option<
    CreatePropertySlotView,
> {
    match item {
        Some(item) => Some(property_slot(item)),
        None => None,
    }
}

fn lower_optional_property(item: Option<CreateProperty>) -> (slot: Option<CreatePropertySlot>)
    ensures
        views::some_view(slot) == optional_property_slot(views::some_view(item)),
{
    match item {
        Some(item) => Some(lower_create_property(item)),
        None => None,
    }
}

/// The slots of written properties.
pub open spec fn property_slots(items: Seq<CreatePropertyView>) -> Seq<CreatePropertySlotView> {
    items.map_values(|item: CreatePropertyView| property_slot(item))
}

/// The slots of written properties.
pub fn lower_create_properties(items: Vec<CreateProperty>) -> (slots: Vec<CreatePropertySlot>)
    ensures
        views::views(slots@) == property_slots(views::views(items@)),
{
    let mut slots: Vec<CreatePropertySlot> = Vec::new();
    let ghost all = property_slots(views::views(items@));
    for item in iter: items
        invariant
            iter.seq() == items@,
            all == property_slots(views::views(items@)),
            views::views(slots@) == all.take(iter.index() as int),
    {
        let ghost i = iter.index() as int;
        let ghost earlier = slots@;
        let slot: CreatePropertySlot = lower_create_property(item);
        slots.push(slot);
        proof {
            views::lemma_push(earlier, slot);
            assert(views::views(items@)[i] == item@);
            assert(all.take(i + 1) =~= all.take(i).push(slot@));
        }
    }
    assert(all.take(all.len() as int) =~= all);
    slots
}

/// Lower a node scan.
pub open spec fn lowered_scan(plan: LogicalNodeScanView) -> PhysicalNodeScanView {
    PhysicalNodeScanView {
        var: plan.node.var,
        table_oid: plan.node.table_oid,
        label: plan.node.label,
        returns: return_slots(plan.returns),
        distinct_stages: stage_slots(plan.distinct_stages),
        distinct: plan.distinct,
        predicate: plan.predicate,
        order_by: plan.order_by,
        skip: plan.skip,
        limit: plan.limit,
    }
}

/// Lower a node scan.
pub fn lower_node_scan(plan: LogicalNodeScan) -> (physical: PhysicalNodeScan)
    ensures
        physical@ == lowered_scan(plan@),
{
    PhysicalNodeScan {
        var: plan.node.var,
        table_oid: plan.node.table_oid,
        label: plan.node.label,
        returns: lower_returns(plan.returns),
        distinct_stages: lower_return_stages(plan.distinct_stages),
        distinct: plan.distinct,
        predicate: plan.predicate,
        order_by: plan.order_by,
        skip: plan.skip,
        limit: plan.limit,
    }
}

/// Lower a bound logical plan into the executable physical plan.
pub open spec fn lowered(plan: LogicalPlanView) -> PhysicalPlanView {
    PhysicalPlanView {
        optional: plan.optional,
        source_var: plan.source.var,
        source_table_oid: plan.source.table_oid,
        source_label: plan.source.label,
        rel_type: plan.relationship.rel_type,
        rel_var: plan.relationship.var,
        direction: plan.relationship.direction,
        hops: plan.relationship.hops,
        target_var: plan.target.var,
        target_table_oid: plan.target.table_oid,
        target_label: plan.target.label,
        returns: return_slots(plan.returns),
        distinct_stages: stage_slots(plan.distinct_stages),
        distinct: plan.distinct,
        predicate: plan.predicate,
        order_by: plan.order_by,
        skip: plan.skip,
        limit: plan.limit,
    }
}

/// Lower a bound logical plan into the executable physical plan.
pub fn lower(plan: LogicalPlan) -> (physical: PhysicalPlan)
    ensures
        physical@ == lowered(plan@),
{
    PhysicalPlan {
        optional: plan.optional,
        source_var: plan.source.var,
        source_table_oid: plan.source.table_oid,
        source_label: plan.source.label,
        rel_type: plan.relationship.rel_type,
        rel_var: plan.relationship.var,
        direction: plan.relationship.direction,
        hops: plan.relationship.hops,
        target_var: plan.target.var,
        target_table_oid: plan.target.table_oid,
        target_label: plan.target.label,
        returns: lower_returns(plan.returns),
        distinct_stages: lower_return_stages(plan.distinct_stages),
        distinct: plan.distinct,
        predicate: plan.predicate,
        order_by: plan.order_by,
        skip: plan.skip,
        limit: plan.limit,
    }
}

/// The physical slot of a join slot.
pub open spec fn lowered_join_slot(plan: LogicalJoinNodeSlotView) -> PhysicalJoinNodeSlotView {
    PhysicalJoinNodeSlotView {
        var: plan.var,
        table_oid: plan.table_oid,
        label: plan.label,
    }
}

/// The physical slot of a join slot.
pub fn lower_join_slot(plan: LogicalJoinNodeSlot) -> (physical: PhysicalJoinNodeSlot)
    ensures
        physical@ == lowered_join_slot(plan@),
{
    PhysicalJoinNodeSlot {
        var: plan.var,
        table_oid: plan.table_oid,
        label: plan.label,
    }
}

/// The physical pattern of a join pattern.
pub open spec fn lowered_join_pattern(plan: LogicalJoinPatternView) -> PhysicalJoinPatternView {
    PhysicalJoinPatternView {
        source_slot: plan.source_slot,
        rel_type: plan.rel_type,
        direction: plan.direction,
        target_slot: plan.target_slot,
    }
}

/// The physical pattern of a join pattern.
pub fn lower_join_pattern(plan: LogicalJoinPattern) -> (physical: PhysicalJoinPattern)
    ensures
        physical@ == lowered_join_pattern(plan@),
{
    PhysicalJoinPattern {
        source_slot: plan.source_slot,
        rel_type: plan.rel_type,
        direction: plan.direction,
        target_slot: plan.target_slot,
    }
}

/// The physical slots of join slots.
pub open spec fn lowered_join_slots(items: Seq<LogicalJoinNodeSlotView>) -> Seq<PhysicalJoinNodeSlotView> {
    items.map_values(|item: LogicalJoinNodeSlotView| lowered_join_slot(item))
}

/// The physical slots of join slots.
pub fn lower_join_slots(items: Vec<LogicalJoinNodeSlot>) -> (slots: Vec<PhysicalJoinNodeSlot>)
    ensures
        views::views(slots@) == lowered_join_slots(views::views(items@)),
{
    let mut slots: Vec<PhysicalJoinNodeSlot> = Vec::new();
    let ghost all = lowered_join_slots(views::views(items@));
    for item in iter: items
        invariant
            iter.seq() == items@,
            all == lowered_join_slots(views::views(items@)),
            views::views(slots@) == all.take(iter.index() as int),
    {
        let ghost i = iter.index() as int;
        let ghost earlier = slots@;
        let slot: PhysicalJoinNodeSlot = lower_join_slot(item);
        slots.push(slot);
        proof {
            views::lemma_push(earlier, slot);
            assert(views::views(items@)[i] == item@);
            assert(all.take(i + 1) =~= all.take(i).push(slot@));
        }
    }
    assert(all.take(all.len() as int) =~= all);
    slots
}

/// The physical patterns of join patterns.
pub open spec fn lowered_join_patterns(items: Seq<LogicalJoinPatternView>) -> Seq<PhysicalJoinPatternView> {
    items.map_values(|item: LogicalJoinPatternView| lowered_join_pattern(item))
}

/// The physical patterns of join patterns.
pub fn lower_join_patterns(items: Vec<LogicalJoinPattern>) -> (slots: Vec<PhysicalJoinPattern>)
    ensures
        views::views(slots@) == lowered_join_patterns(views::views(items@)),
{
    let mut slots: Vec<PhysicalJoinPattern> = Vec::new();
    let ghost all = lowered_join_patterns(views::views(items@));
    for item in iter: items
        invariant
            iter.seq() == items@,
            all == lowered_join_patterns(views::views(items@)),
            views::views(slots@) == all.take(iter.index() as int),
    {
        let ghost i = iter.index() as int;
        let ghost earlier = slots@;
        let slot: PhysicalJoinPattern = lower_join_pattern(item);
        slots.push(slot);
        proof {
            views::lemma_push(earlier, slot);
            assert(views::views(items@)[i] == item@);
            assert(all.take(i + 1) =~= all.take(i).push(slot@));
        }
    }
    assert(all.take(all.len() as int) =~= all);
    slots
}

/// Lower a multi-pattern join.
pub open spec fn lowered_join(plan: LogicalJoinPlanView) -> PhysicalJoinPlanView {
    PhysicalJoinPlanView {
        node_slots: lowered_join_slots(plan.node_slots),
        patterns: lowered_join_patterns(plan.patterns),
        returns: return_slots(plan.returns),
        distinct: plan.distinct,
        predicate: plan.predicate,
        order_by: plan.order_by,
        required_table_oids: plan.required_table_oids,
        skip: plan.skip,
        limit: plan.limit,
    }
}

/// Lower a multi-pattern join.
pub fn lower_join(plan: LogicalJoinPlan) -> (physical: PhysicalJoinPlan)
    ensures
        physical@ == lowered_join(plan@),
{
    PhysicalJoinPlan {
        node_slots: lower_join_slots(plan.node_slots),
        patterns: lower_join_patterns(plan.patterns),
        returns: lower_returns(plan.returns),
        distinct: plan.distinct,
        predicate: plan.predicate,
        order_by: plan.order_by,
        required_table_oids: plan.required_table_oids,
        skip: plan.skip,
        limit: plan.limit,
    }
}

/// The physical segment of a path segment, which is one hop long.
pub open spec fn lowered_segment(plan: LogicalWildcardPathSegmentView) -> PhysicalWildcardPathSegmentView {
    PhysicalWildcardPathSegmentView {
        rel_var: plan.rel_var,
        target_var: plan.target_var,
        direction: plan.direction,
        target_table_filter: plan.target_table_filter,
        rel_type_filter: plan.rel_type_filter,
        hops: HopBounds { variable: false, min: 1, max: 1 },
    }
}

/// The physical segment of a path segment, which is one hop long.
pub fn lower_segment(plan: LogicalWildcardPathSegment) -> (physical: PhysicalWildcardPathSegment)
    ensures
        physical@ == lowered_segment(plan@),
{
    PhysicalWildcardPathSegment {
        rel_var: plan.rel_var,
        target_var: plan.target_var,
        direction: plan.direction,
        target_table_filter: plan.target_table_filter,
        rel_type_filter: plan.rel_type_filter,
        hops: HopBounds { variable: false, min: 1, max: 1 },
    }
}

/// The physical segments of path segments.
pub open spec fn lowered_segments(items: Seq<LogicalWildcardPathSegmentView>) -> Seq<PhysicalWildcardPathSegmentView> {
    items.map_values(|item: LogicalWildcardPathSegmentView| lowered_segment(item))
}

/// The physical segments of path segments.
pub fn lower_segments(items: Vec<LogicalWildcardPathSegment>) -> (slots: Vec<PhysicalWildcardPathSegment>)
    ensures
        views::views(slots@) == lowered_segments(views::views(items@)),
{
    let mut slots: Vec<PhysicalWildcardPathSegment> = Vec::new();
    let ghost all = lowered_segments(views::views(items@));
    for item in iter: items
        invariant
            iter.seq() == items@,
            all == lowered_segments(views::views(items@)),
            views::views(slots@) == all.take(iter.index() as int),
    {
        let ghost i = iter.index() as int;
        let ghost earlier = slots@;
        let slot: PhysicalWildcardPathSegment = lower_segment(item);
        slots.push(slot);
        proof {
            views::lemma_push(earlier, slot);
            assert(views::views(items@)[i] == item@);
            assert(all.take(i + 1) =~= all.take(i).push(slot@));
        }
    }
    assert(all.take(all.len() as int) =~= all);
    slots
}

/// Lower a wildcard path.
pub open spec fn lowered_path(plan: LogicalWildcardPathPlanView) -> PhysicalWildcardPathPlanView {
    PhysicalWildcardPathPlanView {
        path_var: plan.path_var,
        source_var: plan.source_var,
        returns: return_slots(plan.returns),
        source_table_filter: plan.source_table_filter,
        segments: lowered_segments(plan.segments),
        required_node_table_oids: plan.required_node_table_oids,
        table_labels: plan.table_labels,
        rel_type_labels: plan.rel_type_labels,
        skip: plan.skip,
        limit: plan.limit,
    }
}

/// Lower a wildcard path.
pub fn lower_wildcard_path(plan: LogicalWildcardPathPlan) -> (physical: PhysicalWildcardPathPlan)
    ensures
        physical@ == lowered_path(plan@),
{
    PhysicalWildcardPathPlan {
        path_var: plan.path_var,
        source_var: plan.source_var,
        returns: lower_returns(plan.returns),
        source_table_filter: plan.source_table_filter,
        segments: lower_segments(plan.segments),
        required_node_table_oids: plan.required_node_table_oids,
        table_labels: plan.table_labels,
        rel_type_labels: plan.rel_type_labels,
        skip: plan.skip,
        limit: plan.limit,
    }
}

/// Lower a node creation.
pub open spec fn lowered_create(plan: LogicalCreateNodeView) -> PhysicalCreateNodeView {
    PhysicalCreateNodeView {
        var: plan.node.var,
        table_oid: plan.node.table_oid,
        label: plan.node.label,
        properties: property_slots(plan.properties),
        returns: create_return_slots(plan.returns),
    }
}

/// Lower a node creation.
pub fn lower_create_node(plan: LogicalCreateNode) -> (physical: PhysicalCreateNode)
    ensures
        physical@ == lowered_create(plan@),
{
    PhysicalCreateNode {
        var: plan.node.var,
        table_oid: plan.node.table_oid,
        label: plan.node.label,
        properties: lower_create_properties(plan.properties),
        returns: lower_create_returns(plan.returns),
    }
}

/// Lower a node merge.
pub open spec fn lowered_merge(plan: LogicalMergeNodeView) -> PhysicalMergeNodeView {
    PhysicalMergeNodeView {
        var: plan.node.var,
        table_oid: plan.node.table_oid,
        label: plan.node.label,
        properties: property_slots(plan.properties),
        on_create: optional_property_slot(plan.on_create),
        on_match: optional_property_slot(plan.on_match),
        returns: create_return_slots(plan.returns),
    }
}

/// Lower a node merge.
pub fn lower_merge_node(plan: LogicalMergeNode) -> (physical: PhysicalMergeNode)
    ensures
        physical@ == lowered_merge(plan@),
{
    PhysicalMergeNode {
        var: plan.node.var,
        table_oid: plan.node.table_oid,
        label: plan.node.label,
        properties: lower_create_properties(plan.properties),
        on_create: lower_optional_property(plan.on_create),
        on_match: lower_optional_property(plan.on_match),
        returns: lower_create_returns(plan.returns),
    }
}

/// Lower a property update.
pub open spec fn lowered_set(plan: LogicalSetPropertyView) -> PhysicalSetPropertyView {
    PhysicalSetPropertyView {
        var: plan.node.var,
        table_oid: plan.node.table_oid,
        label: plan.node.label,
        predicate: plan.predicate,
        property: plan.property,
        value: value_slot(plan.value),
        returns: create_return_slots(plan.returns),
    }
}

/// Lower a property update.
pub fn lower_set_property(plan: LogicalSetProperty) -> (physical: PhysicalSetProperty)
    ensures
        physical@ == lowered_set(plan@),
{
    PhysicalSetProperty {
        var: plan.node.var,
        table_oid: plan.node.table_oid,
        label: plan.node.label,
        predicate: plan.predicate,
        property: plan.property,
        value: lower_create_value(plan.value),
        returns: lower_create_returns(plan.returns),
    }
}

/// Lower a property removal.
pub open spec fn lowered_remove(plan: LogicalRemovePropertyView) -> PhysicalRemovePropertyView {
    PhysicalRemovePropertyView {
        var: plan.node.var,
        table_oid: plan.node.table_oid,
        label: plan.node.label,
        predicate: plan.predicate,
        property: plan.property,
        returns: create_return_slots(plan.returns),
    }
}

/// Lower a property removal.
pub fn lower_remove_property(plan: LogicalRemoveProperty) -> (physical: PhysicalRemoveProperty)
    ensures
        physical@ == lowered_remove(plan@),
{
    PhysicalRemoveProperty {
        var: plan.node.var,
        table_oid: plan.node.table_oid,
        label: plan.node.label,
        predicate: plan.predicate,
        property: plan.property,
        returns: lower_create_returns(plan.returns),
    }
}

/// Lower an edge deletion.
pub open spec fn lowered_delete(plan: LogicalDeleteEdgeView) -> PhysicalDeleteEdgeView {
    PhysicalDeleteEdgeView {
        source_var: plan.source.var,
        source_table_oid: plan.source.table_oid,
        source_label: plan.source.label,
        rel_type: plan.relationship.rel_type,
        rel_var: plan.rel_var,
        direction: plan.relationship.direction,
        target_var: plan.target.var,
        target_table_oid: plan.target.table_oid,
        target_label: plan.target.label,
        edge_table_oid: plan.edge.edge_table_oid,
        edge_source_table_oid: plan.edge.source_table_oid,
        edge_target_table_oid: plan.edge.target_table_oid,
        source_column: plan.edge.source_column,
        target_column: plan.edge.target_column,
        bidirectional: plan.edge.bidirectional,
        predicate: plan.predicate,
        returns: return_slots(plan.returns),
    }
}

/// Lower an edge deletion.
pub fn lower_delete_edge(plan: LogicalDeleteEdge) -> (physical: PhysicalDeleteEdge)
    ensures
        physical@ == lowered_delete(plan@),
{
    PhysicalDeleteEdge {
        source_var: plan.source.var,
        source_table_oid: plan.source.table_oid,
        source_label: plan.source.label,
        rel_type: plan.relationship.rel_type,
        rel_var: plan.rel_var,
        direction: plan.relationship.direction,
        target_var: plan.target.var,
        target_table_oid: plan.target.table_oid,
        target_label: plan.target.label,
        edge_table_oid: plan.edge.edge_table_oid,
        edge_source_table_oid: plan.edge.source_table_oid,
        edge_target_table_oid: plan.edge.target_table_oid,
        source_column: plan.edge.source_column,
        target_column: plan.edge.target_column,
        bidirectional: plan.edge.bidirectional,
        predicate: plan.predicate,
        returns: lower_returns(plan.returns),
    }
}

/// The physical form of an incident edge.
pub open spec fn lowered_incident(plan: BoundIncidentEdgeView) -> PhysicalIncidentEdgeView {
    PhysicalIncidentEdgeView {
        rel_type: plan.rel_type,
        edge_table_oid: plan.edge.edge_table_oid,
        edge_source_table_oid: plan.edge.source_table_oid,
        edge_target_table_oid: plan.edge.target_table_oid,
        source_column: plan.edge.source_column,
        target_column: plan.edge.target_column,
        bidirectional: plan.edge.bidirectional,
    }
}

/// The physical form of an incident edge.
pub fn lower_incident_edge(plan: BoundIncidentEdge) -> (physical: PhysicalIncidentEdge)
    ensures
        physical@ == lowered_incident(plan@),
{
    PhysicalIncidentEdge {
        rel_type: plan.rel_type,
        edge_table_oid: plan.edge.edge_table_oid,
        edge_source_table_oid: plan.edge.source_table_oid,
        edge_target_table_oid: plan.edge.target_table_oid,
        source_column: plan.edge.source_column,
        target_column: plan.edge.target_column,
        bidirectional: plan.edge.bidirectional,
    }
}

/// The physical forms of incident edges.
pub open spec fn lowered_incidents(items: Seq<BoundIncidentEdgeView>) -> Seq<PhysicalIncidentEdgeView> {
    items.map_values(|item: BoundIncidentEdgeView| lowered_incident(item))
}

/// The physical forms of incident edges.
pub fn lower_incident_edges(items: Vec<BoundIncidentEdge>) -> (slots: Vec<PhysicalIncidentEdge>)
    ensures
        views::views(slots@) == lowered_incidents(views::views(items@)),
{
    let mut slots: Vec<PhysicalIncidentEdge> = Vec::new();
    let ghost all = lowered_incidents(views::views(items@));
    for item in iter: items
        invariant
            iter.seq() == items@,
            all == lowered_incidents(views::views(items@)),
            views::views(slots@) == all.take(iter.index() as int),
    {
        let ghost i = iter.index() as int;
        let ghost earlier = slots@;
        let slot: PhysicalIncidentEdge = lower_incident_edge(item);
        slots.push(slot);
        proof {
            views::lemma_push(earlier, slot);
            assert(views::views(items@)[i] == item@);
            assert(all.take(i + 1) =~= all.take(i).push(slot@));
        }
    }
    assert(all.take(all.len() as int) =~= all);
    slots
}

/// Lower a node detach-delete.
pub open spec fn lowered_detach(plan: LogicalDetachDeleteNodeView) -> PhysicalDetachDeleteNodeView {
    PhysicalDetachDeleteNodeView {
        var: plan.node.var,
        table_oid: plan.node.table_oid,
        label: plan.node.label,
        predicate: plan.predicate,
        incident_edges: lowered_incidents(plan.incident_edges),
        returns: create_return_slots(plan.returns),
    }
}

/// Lower a node detach-delete.
pub fn lower_detach_delete_node(plan: LogicalDetachDeleteNode) -> (physical: PhysicalDetachDeleteNode)
    ensures
        physical@ == lowered_detach(plan@),
{
    PhysicalDetachDeleteNode {
        var: plan.node.var,
        table_oid: plan.node.table_oid,
        label: plan.node.label,
        predicate: plan.predicate,
        incident_edges: lower_incident_edges(plan.incident_edges),
        returns: lower_create_returns(plan.returns),
    }
}

/// What a bound logical statement lowers to.
pub open spec fn lowered_statement(statement: LogicalStatementView) -> PhysicalStatementView {
    match statement {
        LogicalStatementView::Read(plan) => PhysicalStatementView::Read(lowered(plan)),
        LogicalStatementView::JoinRead(plan) => PhysicalStatementView::JoinRead(lowered_join(plan)),
        LogicalStatementView::WildcardPathRead(plan) => PhysicalStatementView::WildcardPathRead(lowered_path(plan)),
        LogicalStatementView::NodeScan(plan) => PhysicalStatementView::NodeScan(lowered_scan(plan)),
        LogicalStatementView::CreateNode(plan) => PhysicalStatementView::CreateNode(lowered_create(plan)),
        LogicalStatementView::SetProperty(plan) => PhysicalStatementView::SetProperty(lowered_set(plan)),
        LogicalStatementView::RemoveProperty(plan) => PhysicalStatementView::RemoveProperty(lowered_remove(plan)),
        LogicalStatementView::DeleteEdge(plan) => PhysicalStatementView::DeleteEdge(lowered_delete(plan)),
        LogicalStatementView::DetachDeleteNode(plan) => PhysicalStatementView::DetachDeleteNode(lowered_detach(plan)),
        LogicalStatementView::MergeNode(plan) => PhysicalStatementView::MergeNode(lowered_merge(plan)),
    }
}

/// Lower a bound logical statement into an executable physical statement.
pub fn lower_statement(statement: LogicalStatement) -> (physical: PhysicalStatement)
    ensures
        physical@ == lowered_statement(statement@),
{
    match statement {
        LogicalStatement::Read(plan) => PhysicalStatement::Read(lower(plan)),
        LogicalStatement::JoinRead(plan) => PhysicalStatement::JoinRead(lower_join(plan)),
        LogicalStatement::WildcardPathRead(plan) => PhysicalStatement::WildcardPathRead(lower_wildcard_path(plan)),
        LogicalStatement::NodeScan(plan) => PhysicalStatement::NodeScan(lower_node_scan(plan)),
        LogicalStatement::CreateNode(plan) => PhysicalStatement::CreateNode(lower_create_node(plan)),
        LogicalStatement::SetProperty(plan) => PhysicalStatement::SetProperty(lower_set_property(plan)),
        LogicalStatement::RemoveProperty(plan) => PhysicalStatement::RemoveProperty(lower_remove_property(plan)),
        LogicalStatement::DeleteEdge(plan) => PhysicalStatement::DeleteEdge(lower_delete_edge(plan)),
        LogicalStatement::DetachDeleteNode(plan) => PhysicalStatement::DetachDeleteNode(lower_detach_delete_node(plan)),
        LogicalStatement::MergeNode(plan) => PhysicalStatement::MergeNode(lower_merge_node(plan)),
    }
}

// ---------------------------------------------------------------------------
// Laws
// ---------------------------------------------------------------------------

/// Lowering keeps the output columns of a query, in order.
pub proof fn lemma_lowering_keeps_columns(bindings: Seq<ReturnBindingView>, i: int)
    requires
        0 <= i < bindings.len(),
    ensures
        return_slots(bindings).len() == bindings.len(),
        crate::query::physical_plan::slot_name(return_slots(bindings)[i])
            == logical_plan::return_name(bindings[i]),
{
}

} // verus!
