//! What a lowered statement keeps of the bound one.
use vstd::prelude::*;

use crate::gql::ast::LiteralValue;
use crate::query::evaluate::{self, ValueSources};
use crate::query::logical_plan::{
    AggregateArg, BoundIncidentEdge, CreateProperty, CreateReturnBinding, CreateValue,
    LogicalCreateNode, LogicalDeleteEdge, LogicalDetachDeleteNode, LogicalJoinPlan,
    LogicalMergeNode, LogicalNodeScan, LogicalPlan, LogicalRemoveProperty, LogicalSetProperty,
    LogicalStatement, LogicalWildcardPathPlan, Predicate, ReturnBinding, Scalar, SortBinding,
    SortBindingKey,
};
use crate::query::lower;
use crate::query::physical_plan::{
    self, CreatePropertySlot, CreateReturnSlot, CreateValueSlot, PhysicalCreateNode,
    PhysicalDeleteEdge, PhysicalDetachDeleteNode, PhysicalIncidentEdge, PhysicalJoinPlan,
    PhysicalMergeNode, PhysicalNodeScan, PhysicalPlan, PhysicalRemoveProperty,
    PhysicalSetProperty, PhysicalStatement, PhysicalWildcardPathPlan, ReturnSlot,
};
use crate::query::rows::RowView;
use crate::safety::GraphErrorView;
use crate::views;

verus! {

// ---------------------------------------------------------------------------
// Parts
// ---------------------------------------------------------------------------

/// Whether two optional texts are the same.
pub open spec fn same_name(a: Option<String>, b: Option<String>) -> bool {
    match (a, b) {
        (Some(x), Some(y)) => x@ == y@,
        (None, None) => true,
        _ => false,
    }
}

/// Whether two aggregates are over the same values.
pub open spec fn same_argument(a: AggregateArg, b: AggregateArg) -> bool {
    match (a, b) {
        (AggregateArg::All, AggregateArg::All) => true,
        (AggregateArg::Node(x), AggregateArg::Node(y)) => x == y,
        (AggregateArg::Relationship, AggregateArg::Relationship) => true,
        (
            AggregateArg::Property { side: x, property: p },
            AggregateArg::Property { side: y, property: q },
        ) => x == y && p@ == q@,
        _ => false,
    }
}

/// Whether a slot returns what a binding returns, under the same name.
pub open spec fn returns_same(item: ReturnBinding, slot: ReturnSlot) -> bool {
    match (item, slot) {
        (
            ReturnBinding::Node { side: x, name: n },
            ReturnSlot::Node { side: y, name: m },
        ) => x == y && n@ == m@,
        (ReturnBinding::Relationship { name: n }, ReturnSlot::Relationship { name: m }) => n@
            == m@,
        (ReturnBinding::Path { name: n }, ReturnSlot::Path { name: m }) => n@ == m@,
        (
            ReturnBinding::PathFunction { func: f, name: n },
            ReturnSlot::PathFunction { func: g, name: m },
        ) => f == g && n@ == m@,
        (
            ReturnBinding::Property { side: x, property: p, name: n },
            ReturnSlot::Property { side: y, property: q, name: m },
        ) => x == y && p@ == q@ && n@ == m@,
        (
            ReturnBinding::Aggregate { func: f, arg: a, distinct: d, name: n },
            ReturnSlot::Aggregate { func: g, arg: b, distinct: e, name: m },
        ) => f == g && same_argument(a, b) && d == e && n@ == m@,
        _ => false,
    }
}

/// Whether slots return what bindings return, place by place.
pub open spec fn all_return_same(items: Seq<ReturnBinding>, slots: Seq<ReturnSlot>) -> bool {
    &&& items.len() == slots.len()
    &&& forall|i: int| 0 <= i < items.len() ==> returns_same(items[i], #[trigger] slots[i])
}

/// Whether stages deduplicate by the same values, place by place.
pub open spec fn stages_return_same(
    items: Seq<Vec<ReturnBinding>>,
    slots: Seq<Vec<ReturnSlot>>,
) -> bool {
    &&& items.len() == slots.len()
    &&& forall|i: int|
        0 <= i < items.len() ==> all_return_same(items[i]@, (#[trigger] slots[i])@)
}

/// Whether a slot of a write returns what a binding returns, under the same name.
pub open spec fn write_returns_same(item: CreateReturnBinding, slot: CreateReturnSlot) -> bool {
    match (item, slot) {
        (CreateReturnBinding::Node { name: n }, CreateReturnSlot::Node { name: m }) => n@ == m@,
        (
            CreateReturnBinding::Property { property: p, name: n },
            CreateReturnSlot::Property { property: q, name: m },
        ) => p@ == q@ && n@ == m@,
        _ => false,
    }
}

/// Whether slots of a write return what bindings return, place by place.
pub open spec fn all_write_returns_same(
    items: Seq<CreateReturnBinding>,
    slots: Seq<CreateReturnSlot>,
) -> bool {
    &&& items.len() == slots.len()
    &&& forall|i: int| 0 <= i < items.len() ==> write_returns_same(items[i], #[trigger] slots[i])
}

/// Whether a scalar is a literal, where a floating-point number that is not finite is
/// null.
pub open spec fn is_scalar_of(literal: LiteralValue, scalar: Scalar) -> bool {
    match literal {
        LiteralValue::Str(x) => scalar matches Scalar::Text(y) && x@ == y@,
        LiteralValue::Int(x) => scalar matches Scalar::Int(y) && x == y,
        LiteralValue::Bool(x) => scalar matches Scalar::Bool(y) && x == y,
        LiteralValue::Null => scalar is Null,
        LiteralValue::Float(x) => if x.bits % 0x8000_0000_0000_0000 < 0x7ff0_0000_0000_0000 {
            scalar matches Scalar::Float(y) && x.bits == y.bits && x.text@ == y.text@
        } else {
            scalar is Null
        },
    }
}

/// Whether a slot writes the value that a statement names.
pub open spec fn writes_same_value(value: CreateValue, slot: CreateValueSlot) -> bool {
    match (value, slot) {
        (CreateValue::Literal(literal), CreateValueSlot::Literal(scalar)) => is_scalar_of(
            literal,
            scalar,
        ),
        (CreateValue::Param(n), CreateValueSlot::Param(m)) => n@ == m@,
        _ => false,
    }
}

/// Whether a slot writes the property that a statement names, with its value.
pub open spec fn writes_same(item: CreateProperty, slot: CreatePropertySlot) -> bool {
    item.property@ == slot.property@ && writes_same_value(item.value, slot.value)
}

/// Whether optional slots write the same.
pub open spec fn writes_same_if_any(
    item: Option<CreateProperty>,
    slot: Option<CreatePropertySlot>,
) -> bool {
    match (item, slot) {
        (Some(item), Some(slot)) => writes_same(item, slot),
        (None, None) => true,
        _ => false,
    }
}

/// Whether slots write what properties say, place by place.
pub open spec fn all_write_same(items: Seq<CreateProperty>, slots: Seq<CreatePropertySlot>) -> bool {
    &&& items.len() == slots.len()
    &&& forall|i: int| 0 <= i < items.len() ==> writes_same(items[i], #[trigger] slots[i])
}

/// Whether sort keys are the same, place by place.
pub open spec fn sorts_same(a: Seq<SortBinding>, b: Seq<SortBinding>) -> bool {
    &&& a.len() == b.len()
    &&& forall|i: int|
        0 <= i < a.len() ==> a[i].desc == (#[trigger] b[i]).desc && match (a[i].key, b[i].key) {
            (SortBindingKey::ReturnName(n), SortBindingKey::ReturnName(m)) => n@ == m@,
            (
                SortBindingKey::Property { side: x, property: p },
                SortBindingKey::Property { side: y, property: q },
            ) => x == y && p@ == q@,
            _ => false,
        }
}

/// Whether a predicate selects a row; where there is none all rows are selected.
pub open spec fn selects(
    predicate: Option<Predicate>,
    sources: ValueSources,
    row: RowView,
) -> Result<bool, GraphErrorView> {
    match predicate {
        Some(inner) => evaluate::predicate_holds(sources, row, inner@),
        None => Ok(true),
    }
}

/// Whether two predicates are there or not together and select the same rows.
pub open spec fn select_alike(a: Option<Predicate>, b: Option<Predicate>) -> bool {
    &&& a is Some <==> b is Some
    &&& views::some_view(a) == views::some_view(b)
    &&& forall|sources: ValueSources, row: RowView| #[trigger]
        selects(a, sources, row) == selects(b, sources, row)
}

/// Whether an incident edge names the same edge rows.
pub open spec fn is_same_incident(a: BoundIncidentEdge, b: PhysicalIncidentEdge) -> bool {
    &&& a.rel_type@ == b.rel_type@
    &&& a.edge.edge_table_oid == b.edge_table_oid
    &&& a.edge.source_table_oid == b.edge_source_table_oid
    &&& a.edge.target_table_oid == b.edge_target_table_oid
    &&& a.edge.source_column@ == b.source_column@
    &&& a.edge.target_column@ == b.target_column@
    &&& a.edge.bidirectional == b.bidirectional
}

proof fn lemma_return(item: ReturnBinding, slot: ReturnSlot)
    requires
        slot@ == lower::return_slot(item@),
    ensures
        returns_same(item, slot),
{
}

proof fn lemma_returns(items: Vec<ReturnBinding>, slots: Vec<ReturnSlot>)
    requires
        views::views(slots@) == lower::return_slots(views::views(items@)),
    ensures
        all_return_same(items@, slots@),
{
    let a = views::views(items@);
    let b = views::views(slots@);
    assert(b.len() == a.len());
    assert forall|i: int| 0 <= i < items@.len() implies returns_same(
        items@[i],
        #[trigger] slots@[i],
    ) by {
        assert(b[i] == slots@[i]@ && a[i] == items@[i]@);
        lemma_return(items@[i], slots@[i]);
    }
}

proof fn lemma_stages(items: Vec<Vec<ReturnBinding>>, slots: Vec<Vec<ReturnSlot>>)
    requires
        views::nested(slots@) == lower::stage_slots(views::nested(items@)),
    ensures
        stages_return_same(items@, slots@),
{
    let a = views::nested(items@);
    let b = views::nested(slots@);
    assert(b.len() == a.len());
    assert forall|i: int| 0 <= i < items@.len() implies all_return_same(
        items@[i]@,
        (#[trigger] slots@[i])@,
    ) by {
        assert(b[i] == views::views(slots@[i]@) && a[i] == views::views(items@[i]@));
        lemma_returns(items@[i], slots@[i]);
    }
}

proof fn lemma_write_returns(items: Vec<CreateReturnBinding>, slots: Vec<CreateReturnSlot>)
    requires
        views::views(slots@) == lower::create_return_slots(views::views(items@)),
    ensures
        all_write_returns_same(items@, slots@),
{
    let a = views::views(items@);
    let b = views::views(slots@);
    assert(b.len() == a.len());
    assert forall|i: int| 0 <= i < items@.len() implies write_returns_same(
        items@[i],
        #[trigger] slots@[i],
    ) by {
        assert(b[i] == slots@[i]@ && a[i] == items@[i]@);
    }
}

proof fn lemma_value(value: CreateValue, slot: CreateValueSlot)
    requires
        slot@ == lower::value_slot(value@),
    ensures
        writes_same_value(value, slot),
{
    if let CreateValue::Literal(LiteralValue::Float(x)) = value {
        let bits = x.bits;
        assert(((bits / 0x10_0000_0000_0000) % 0x800 != 0x7ff) == (bits % 0x8000_0000_0000_0000
            < 0x7ff0_0000_0000_0000)) by (bit_vector);
    }
}

proof fn lemma_writes(items: Vec<CreateProperty>, slots: Vec<CreatePropertySlot>)
    requires
        views::views(slots@) == lower::property_slots(views::views(items@)),
    ensures
        all_write_same(items@, slots@),
{
    let a = views::views(items@);
    let b = views::views(slots@);
    assert(b.len() == a.len());
    assert forall|i: int| 0 <= i < items@.len() implies writes_same(
        items@[i],
        #[trigger] slots@[i],
    ) by {
        assert(b[i] == slots@[i]@ && a[i] == items@[i]@);
        lemma_value(items@[i].value, slots@[i].value);
    }
}

proof fn lemma_writes_if_any(item: Option<CreateProperty>, slot: Option<CreatePropertySlot>)
    requires
        views::some_view(slot) == lower::optional_property_slot(views::some_view(item)),
    ensures
        writes_same_if_any(item, slot),
{
    if let (Some(x), Some(y)) = (item, slot) {
        lemma_value(x.value, y.value);
    }
}

proof fn lemma_sorts(a: Vec<SortBinding>, b: Vec<SortBinding>)
    requires
        views::views(a@) == views::views(b@),
    ensures
        sorts_same(a@, b@),
{
    let x = views::views(a@);
    let y = views::views(b@);
    assert(x.len() == y.len());
    assert forall|i: int| 0 <= i < a@.len() implies a@[i].desc == (#[trigger] b@[i]).desc && match (
        a@[i].key,
        b@[i].key,
    ) {
        (SortBindingKey::ReturnName(n), SortBindingKey::ReturnName(m)) => n@ == m@,
        (
            SortBindingKey::Property { side: x, property: p },
            SortBindingKey::Property { side: y, property: q },
        ) => x == y && p@ == q@,
        _ => false,
    } by {
        assert(x[i] == a@[i]@ && y[i] == b@[i]@);
    }
}

proof fn lemma_selects(a: Option<Predicate>, b: Option<Predicate>)
    requires
        views::some_view(a) == views::some_view(b),
    ensures
        select_alike(a, b),
{
}

// ---------------------------------------------------------------------------
// Reads
// ---------------------------------------------------------------------------

/// A lowered read starts from the same nodes, follows the same relationships over the
/// same hops to the same nodes, selects the same rows and returns the same of them.
pub proof fn lemma_read_is_kept(plan: LogicalPlan, physical: PhysicalPlan)
    requires
        physical@ == lower::lowered(plan@),
    ensures
        physical.optional == plan.optional,
        physical.source_var@ == plan.source.var@,
        physical.source_table_oid == plan.source.table_oid,
        physical.source_label@ == plan.source.label@,
        physical.rel_type@ == plan.relationship.rel_type@,
        same_name(physical.rel_var, plan.relationship.var),
        physical.direction == plan.relationship.direction,
        physical.hops.variable == plan.relationship.hops.variable,
        physical.hops.min == plan.relationship.hops.min,
        physical.hops.max == plan.relationship.hops.max,
        physical.target_var@ == plan.target.var@,
        physical.target_table_oid == plan.target.table_oid,
        physical.target_label@ == plan.target.label@,
        all_return_same(plan.returns@, physical.returns@),
        stages_return_same(plan.distinct_stages@, physical.distinct_stages@),
        physical.distinct == plan.distinct,
        select_alike(plan.predicate, physical.predicate),
        sorts_same(plan.order_by@, physical.order_by@),
        physical.skip == plan.skip,
        physical.limit == plan.limit,
{
    lemma_returns(plan.returns, physical.returns);
    lemma_stages(plan.distinct_stages, physical.distinct_stages);
    lemma_selects(plan.predicate, physical.predicate);
    lemma_sorts(plan.order_by, physical.order_by);
}

/// A lowered node scan scans the same table, selects the same nodes and returns the
/// same of them.
pub proof fn lemma_scan_is_kept(plan: LogicalNodeScan, physical: PhysicalNodeScan)
    requires
        physical@ == lower::lowered_scan(plan@),
    ensures
        physical.var@ == plan.node.var@,
        physical.table_oid == plan.node.table_oid,
        physical.label@ == plan.node.label@,
        all_return_same(plan.returns@, physical.returns@),
        stages_return_same(plan.distinct_stages@, physical.distinct_stages@),
        physical.distinct == plan.distinct,
        select_alike(plan.predicate, physical.predicate),
        sorts_same(plan.order_by@, physical.order_by@),
        physical.skip == plan.skip,
        physical.limit == plan.limit,
{
    lemma_returns(plan.returns, physical.returns);
    lemma_stages(plan.distinct_stages, physical.distinct_stages);
    lemma_selects(plan.predicate, physical.predicate);
    lemma_sorts(plan.order_by, physical.order_by);
}

/// A lowered join has the same slots and patterns, selects the same rows and returns
/// the same of them.
pub proof fn lemma_join_is_kept(plan: LogicalJoinPlan, physical: PhysicalJoinPlan)
    requires
        physical@ == lower::lowered_join(plan@),
    ensures
        physical.node_slots@.len() == plan.node_slots@.len(),
        forall|i: int|
            0 <= i < plan.node_slots@.len() ==> {
                &&& (#[trigger] physical.node_slots@[i]).var@ == plan.node_slots@[i].var@
                &&& physical.node_slots@[i].table_oid == plan.node_slots@[i].table_oid
                &&& physical.node_slots@[i].label@ == plan.node_slots@[i].label@
            },
        physical.patterns@.len() == plan.patterns@.len(),
        forall|i: int|
            0 <= i < plan.patterns@.len() ==> {
                &&& (#[trigger] physical.patterns@[i]).source_slot == plan.patterns@[i].source_slot
                &&& physical.patterns@[i].rel_type@ == plan.patterns@[i].rel_type@
                &&& physical.patterns@[i].direction == plan.patterns@[i].direction
                &&& physical.patterns@[i].target_slot == plan.patterns@[i].target_slot
            },
        all_return_same(plan.returns@, physical.returns@),
        physical.distinct == plan.distinct,
        select_alike(plan.predicate, physical.predicate),
        sorts_same(plan.order_by@, physical.order_by@),
        physical.required_table_oids@ == plan.required_table_oids@,
        physical.skip == plan.skip,
        physical.limit == plan.limit,
{
    lemma_returns(plan.returns, physical.returns);
    lemma_selects(plan.predicate, physical.predicate);
    lemma_sorts(plan.order_by, physical.order_by);
    let a = views::views(plan.node_slots@);
    let b = views::views(physical.node_slots@);
    assert(a.len() == b.len());
    assert forall|i: int| 0 <= i < plan.node_slots@.len() implies {
        &&& (#[trigger] physical.node_slots@[i]).var@ == plan.node_slots@[i].var@
        &&& physical.node_slots@[i].table_oid == plan.node_slots@[i].table_oid
        &&& physical.node_slots@[i].label@ == plan.node_slots@[i].label@
    } by {
        assert(b[i] == physical.node_slots@[i]@ && a[i] == plan.node_slots@[i]@);
    }
    let c = views::views(plan.patterns@);
    let d = views::views(physical.patterns@);
    assert(c.len() == d.len());
    assert forall|i: int| 0 <= i < plan.patterns@.len() implies {
        &&& (#[trigger] physical.patterns@[i]).source_slot == plan.patterns@[i].source_slot
        &&& physical.patterns@[i].rel_type@ == plan.patterns@[i].rel_type@
        &&& physical.patterns@[i].direction == plan.patterns@[i].direction
        &&& physical.patterns@[i].target_slot == plan.patterns@[i].target_slot
    } by {
        assert(d[i] == physical.patterns@[i]@ && c[i] == plan.patterns@[i]@);
    }
}

/// A lowered wildcard path has the same segments, each of one hop, the same filters and
/// returns.
pub proof fn lemma_path_is_kept(plan: LogicalWildcardPathPlan, physical: PhysicalWildcardPathPlan)
    requires
        physical@ == lower::lowered_path(plan@),
    ensures
        physical.path_var@ == plan.path_var@,
        same_name(physical.source_var, plan.source_var),
        all_return_same(plan.returns@, physical.returns@),
        physical.source_table_filter == plan.source_table_filter,
        physical.segments@.len() == plan.segments@.len(),
        forall|i: int|
            0 <= i < plan.segments@.len() ==> {
                &&& same_name((#[trigger] physical.segments@[i]).rel_var, plan.segments@[i].rel_var)
                &&& same_name(physical.segments@[i].target_var, plan.segments@[i].target_var)
                &&& physical.segments@[i].direction == plan.segments@[i].direction
                &&& physical.segments@[i].target_table_filter
                    == plan.segments@[i].target_table_filter
                &&& same_name(
                    physical.segments@[i].rel_type_filter,
                    plan.segments@[i].rel_type_filter,
                )
                &&& !physical.segments@[i].hops.variable
                &&& physical.segments@[i].hops.min == 1
                &&& physical.segments@[i].hops.max == 1
            },
        physical.required_node_table_oids@ == plan.required_node_table_oids@,
        physical.table_labels@.len() == plan.table_labels@.len(),
        forall|i: int|
            0 <= i < plan.table_labels@.len() ==> {
                &&& (#[trigger] physical.table_labels@[i]).table_oid
                    == plan.table_labels@[i].table_oid
                &&& physical.table_labels@[i].label@ == plan.table_labels@[i].label@
            },
        physical.rel_type_labels@ == plan.rel_type_labels@,
        physical.skip == plan.skip,
        physical.limit == plan.limit,
{
    lemma_returns(plan.returns, physical.returns);
    let a = views::views(plan.segments@);
    let b = views::views(physical.segments@);
    assert(a.len() == b.len());
    assert forall|i: int| 0 <= i < plan.segments@.len() implies {
        &&& same_name((#[trigger] physical.segments@[i]).rel_var, plan.segments@[i].rel_var)
        &&& same_name(physical.segments@[i].target_var, plan.segments@[i].target_var)
        &&& physical.segments@[i].direction == plan.segments@[i].direction
        &&& physical.segments@[i].target_table_filter == plan.segments@[i].target_table_filter
        &&& same_name(physical.segments@[i].rel_type_filter, plan.segments@[i].rel_type_filter)
        &&& !physical.segments@[i].hops.variable
        &&& physical.segments@[i].hops.min == 1
        &&& physical.segments@[i].hops.max == 1
    } by {
        assert(b[i] == physical.segments@[i]@ && a[i] == plan.segments@[i]@);
    }
    let c = views::views(plan.table_labels@);
    let d = views::views(physical.table_labels@);
    assert(c.len() == d.len());
    assert forall|i: int| 0 <= i < plan.table_labels@.len() implies {
        &&& (#[trigger] physical.table_labels@[i]).table_oid == plan.table_labels@[i].table_oid
        &&& physical.table_labels@[i].label@ == plan.table_labels@[i].label@
    } by {
        assert(d[i] == physical.table_labels@[i]@ && c[i] == plan.table_labels@[i]@);
    }
}

// ---------------------------------------------------------------------------
// Writes
// ---------------------------------------------------------------------------

/// A lowered creation writes the same properties to the same table.
pub proof fn lemma_create_is_kept(plan: LogicalCreateNode, physical: PhysicalCreateNode)
    requires
        physical@ == lower::lowered_create(plan@),
    ensures
        physical.var@ == plan.node.var@,
        physical.table_oid == plan.node.table_oid,
        physical.label@ == plan.node.label@,
        all_write_same(plan.properties@, physical.properties@),
        all_write_returns_same(plan.returns@, physical.returns@),
{
    lemma_writes(plan.properties, physical.properties);
    lemma_write_returns(plan.returns, physical.returns);
}

/// A lowered merge looks for the same properties in the same table, and writes the same
/// where it creates and where it matches.
pub proof fn lemma_merge_is_kept(plan: LogicalMergeNode, physical: PhysicalMergeNode)
    requires
        physical@ == lower::lowered_merge(plan@),
    ensures
        physical.var@ == plan.node.var@,
        physical.table_oid == plan.node.table_oid,
        physical.label@ == plan.node.label@,
        all_write_same(plan.properties@, physical.properties@),
        writes_same_if_any(plan.on_create, physical.on_create),
        writes_same_if_any(plan.on_match, physical.on_match),
        all_write_returns_same(plan.returns@, physical.returns@),
{
    lemma_writes(plan.properties, physical.properties);
    lemma_writes_if_any(plan.on_create, physical.on_create);
    lemma_writes_if_any(plan.on_match, physical.on_match);
    lemma_write_returns(plan.returns, physical.returns);
}

/// A lowered update sets the same property to the same value, of exactly the nodes that
/// the bound statement selects.
pub proof fn lemma_set_is_kept(plan: LogicalSetProperty, physical: PhysicalSetProperty)
    requires
        physical@ == lower::lowered_set(plan@),
    ensures
        physical.var@ == plan.node.var@,
        physical.table_oid == plan.node.table_oid,
        physical.label@ == plan.node.label@,
        select_alike(plan.predicate, physical.predicate),
        physical.property@ == plan.property@,
        writes_same_value(plan.value, physical.value),
        all_write_returns_same(plan.returns@, physical.returns@),
{
    lemma_selects(plan.predicate, physical.predicate);
    lemma_value(plan.value, physical.value);
    lemma_write_returns(plan.returns, physical.returns);
}

/// A lowered removal removes the same property, of exactly the nodes that the bound
/// statement selects.
pub proof fn lemma_remove_is_kept(plan: LogicalRemoveProperty, physical: PhysicalRemoveProperty)
    requires
        physical@ == lower::lowered_remove(plan@),
    ensures
        physical.var@ == plan.node.var@,
        physical.table_oid == plan.node.table_oid,
        physical.label@ == plan.node.label@,
        select_alike(plan.predicate, physical.predicate),
        physical.property@ == plan.property@,
        all_write_returns_same(plan.returns@, physical.returns@),
{
    lemma_selects(plan.predicate, physical.predicate);
    lemma_write_returns(plan.returns, physical.returns);
}

/// A lowered edge deletion deletes rows of the same edge table, of exactly the matches
/// that the bound statement selects.
pub proof fn lemma_delete_is_kept(plan: LogicalDeleteEdge, physical: PhysicalDeleteEdge)
    requires
        physical@ == lower::lowered_delete(plan@),
    ensures
        physical.source_var@ == plan.source.var@,
        physical.source_table_oid == plan.source.table_oid,
        physical.source_label@ == plan.source.label@,
        physical.rel_type@ == plan.relationship.rel_type@,
        physical.rel_var@ == plan.rel_var@,
        physical.direction == plan.relationship.direction,
        physical.target_var@ == plan.target.var@,
        physical.target_table_oid == plan.target.table_oid,
        physical.target_label@ == plan.target.label@,
        physical.edge_table_oid == plan.edge.edge_table_oid,
        physical.edge_source_table_oid == plan.edge.source_table_oid,
        physical.edge_target_table_oid == plan.edge.target_table_oid,
        physical.source_column@ == plan.edge.source_column@,
        physical.target_column@ == plan.edge.target_column@,
        physical.bidirectional == plan.edge.bidirectional,
        select_alike(plan.predicate, physical.predicate),
        all_return_same(plan.returns@, physical.returns@),
{
    lemma_selects(plan.predicate, physical.predicate);
    lemma_returns(plan.returns, physical.returns);
}

/// A lowered detaching deletion deletes exactly the nodes that the bound statement
/// selects, with the rows of the same incident edges.
pub proof fn lemma_detach_is_kept(
    plan: LogicalDetachDeleteNode,
    physical: PhysicalDetachDeleteNode,
)
    requires
        physical@ == lower::lowered_detach(plan@),
    ensures
        physical.var@ == plan.node.var@,
        physical.table_oid == plan.node.table_oid,
        physical.label@ == plan.node.label@,
        select_alike(plan.predicate, physical.predicate),
        physical.incident_edges@.len() == plan.incident_edges@.len(),
        forall|i: int|
            0 <= i < plan.incident_edges@.len() ==> is_same_incident(
                plan.incident_edges@[i],
                #[trigger] physical.incident_edges@[i],
            ),
        all_write_returns_same(plan.returns@, physical.returns@),
{
    lemma_selects(plan.predicate, physical.predicate);
    lemma_write_returns(plan.returns, physical.returns);
    let a = views::views(plan.incident_edges@);
    let b = views::views(physical.incident_edges@);
    assert(a.len() == b.len());
    assert forall|i: int| 0 <= i < plan.incident_edges@.len() implies is_same_incident(
        plan.incident_edges@[i],
        #[trigger] physical.incident_edges@[i],
    ) by {
        assert(b[i] == physical.incident_edges@[i]@ && a[i] == plan.incident_edges@[i]@);
    }
}

/// A lowered statement is of the same kind and selects the same rows as the bound one.
pub proof fn lemma_statement_is_kept(statement: LogicalStatement, physical: PhysicalStatement)
    requires
        physical@ == lower::lowered_statement(statement@),
    ensures
        match (statement, physical) {
            (LogicalStatement::Read(a), PhysicalStatement::Read(b)) => b@ == lower::lowered(a@)
                && select_alike(a.predicate, b.predicate),
            (LogicalStatement::JoinRead(a), PhysicalStatement::JoinRead(b)) => b@
                == lower::lowered_join(a@) && select_alike(a.predicate, b.predicate),
            (
                LogicalStatement::WildcardPathRead(a),
                PhysicalStatement::WildcardPathRead(b),
            ) => b@ == lower::lowered_path(a@),
            (LogicalStatement::NodeScan(a), PhysicalStatement::NodeScan(b)) => b@
                == lower::lowered_scan(a@) && select_alike(a.predicate, b.predicate),
            (LogicalStatement::CreateNode(a), PhysicalStatement::CreateNode(b)) => b@
                == lower::lowered_create(a@),
            (LogicalStatement::SetProperty(a), PhysicalStatement::SetProperty(b)) => b@
                == lower::lowered_set(a@) && select_alike(a.predicate, b.predicate),
            (LogicalStatement::RemoveProperty(a), PhysicalStatement::RemoveProperty(b)) => b@
                == lower::lowered_remove(a@) && select_alike(a.predicate, b.predicate),
            (LogicalStatement::DeleteEdge(a), PhysicalStatement::DeleteEdge(b)) => b@
                == lower::lowered_delete(a@) && select_alike(a.predicate, b.predicate),
            (
                LogicalStatement::DetachDeleteNode(a),
                PhysicalStatement::DetachDeleteNode(b),
            ) => b@ == lower::lowered_detach(a@) && select_alike(a.predicate, b.predicate),
            (LogicalStatement::MergeNode(a), PhysicalStatement::MergeNode(b)) => b@
                == lower::lowered_merge(a@),
            _ => false,
        },
{
}

// ---------------------------------------------------------------------------
// Caps
// ---------------------------------------------------------------------------

/// Whether a cap and what reaching it means fit a plan: only where each match is a row
/// of the result, in the order found, may a plan with a limit stop at the end of its
/// window; else it collects up to the greatest number, and reaching that is an error.
pub open spec fn cap_fits(
    each: bool,
    skip: Option<u64>,
    limit: Option<u64>,
    cap: usize,
    error: bool,
) -> bool {
    let before = match skip {
        Some(skip) => skip as int,
        None => 0,
    };
    match limit {
        Some(limit) if each => {
            &&& !error
            &&& cap == before + limit || (cap == 10_000 && before + limit > 10_000)
        },
        _ => error && cap == 10_000,
    }
}

/// Whether no slot is an aggregate.
pub open spec fn without_aggregates(slots: Seq<ReturnSlot>) -> bool {
    forall|i: int| 0 <= i < slots.len() ==> !((#[trigger] slots[i]) is Aggregate)
}

proof fn lemma_aggregates(slots: Vec<ReturnSlot>)
    ensures
        physical_plan::any_aggregate_slot(views::views(slots@)) <==> !without_aggregates(slots@),
{
    let all = views::views(slots@);
    assert forall|i: int| 0 <= i < all.len() implies (#[trigger] all[i] is Aggregate
        <==> slots@[i] is Aggregate) by {
        assert(all[i] == slots@[i]@);
    }
    if physical_plan::any_aggregate_slot(all) {
        let i = choose|i: int| 0 <= i < all.len() && (#[trigger] all[i]) is Aggregate;
        assert(slots@[i] is Aggregate);
    }
    if !without_aggregates(slots@) {
        let i = choose|i: int| 0 <= i < slots@.len() && (#[trigger] slots@[i]) is Aggregate;
        assert(all[i] is Aggregate);
    }
}

/// The cap of a relationship read.
pub proof fn lemma_read_cap(plan: PhysicalPlan)
    ensures
        cap_fits(
            !plan.distinct && plan.distinct_stages@.len() == 0 && plan.predicate is None
                && plan.order_by@.len() == 0 && without_aggregates(plan.returns@),
            plan.skip,
            plan.limit,
            physical_plan::row_cap(plan@.row_shape()),
            physical_plan::cap_is_error(plan@.row_shape()),
        ),
{
    lemma_aggregates(plan.returns);
    assert(views::nested(plan.distinct_stages@).len() == plan.distinct_stages@.len());
    assert(views::views(plan.order_by@).len() == plan.order_by@.len());
}

/// The cap of a node scan.
pub proof fn lemma_scan_cap(plan: PhysicalNodeScan)
    ensures
        cap_fits(
            !plan.distinct && plan.distinct_stages@.len() == 0 && plan.predicate is None
                && plan.order_by@.len() == 0 && without_aggregates(plan.returns@),
            plan.skip,
            plan.limit,
            physical_plan::row_cap(plan@.row_shape()),
            physical_plan::cap_is_error(plan@.row_shape()),
        ),
{
    lemma_aggregates(plan.returns);
    assert(views::nested(plan.distinct_stages@).len() == plan.distinct_stages@.len());
    assert(views::views(plan.order_by@).len() == plan.order_by@.len());
}

/// The cap of a join.
pub proof fn lemma_join_cap(plan: PhysicalJoinPlan)
    ensures
        cap_fits(
            !plan.distinct && plan.predicate is None && plan.order_by@.len() == 0
                && without_aggregates(plan.returns@),
            plan.skip,
            plan.limit,
            physical_plan::row_cap(plan@.row_shape()),
            physical_plan::cap_is_error(plan@.row_shape()),
        ),
{
    lemma_aggregates(plan.returns);
    assert(views::views(plan.order_by@).len() == plan.order_by@.len());
}

/// The cap of a wildcard path.
pub proof fn lemma_path_cap(plan: PhysicalWildcardPathPlan)
    ensures
        cap_fits(
            without_aggregates(plan.returns@),
            plan.skip,
            plan.limit,
            physical_plan::row_cap(plan@.row_shape()),
            physical_plan::cap_is_error(plan@.row_shape()),
        ),
{
    lemma_aggregates(plan.returns);
}

} // verus!
