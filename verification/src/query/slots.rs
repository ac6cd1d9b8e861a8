//! Values of return slots.
use vstd::prelude::*;

use crate::query::evaluate::{self, side_node, ValueReader, ValueSources};
use crate::query::json::{
    self, duplicate_json, set_entry, Json, JsonNumber, JsonView, NumberView,
};
use crate::query::logical_plan::{
    BindingSide, PathFunc, Predicate, PredicateView, SortBinding, SortBindingView,
};
use crate::query::physical_plan::{
    PhysicalNodeScan, PhysicalNodeScanView, PhysicalPlan, PhysicalPlanView, ReturnSlot,
    ReturnSlotView,
};
use crate::query::rows::{
    CoordinateView, GqlNodeCoordinate, GqlPathRelationship, GqlRow, PathRelationshipView, RowView,
};
use crate::safety::{self, GraphErrorView, GraphResult};
use crate::text::owned;
use crate::views;

verus! {

// ---------------------------------------------------------------------------
// Shape of a read
// ---------------------------------------------------------------------------

/// What decides the values that a read returns.
pub struct Shape<'a> {
    /// Whether sources without a match are kept.
    pub optional: bool,
    /// Table of the source nodes.
    pub source_table_oid: u32,
    /// Label of the source nodes.
    pub source_label: &'a str,
    /// Label of the target nodes.
    pub target_label: &'a str,
    /// Relationship type.
    pub rel_type: &'a str,
    /// Return slots in requested order.
    pub slots: &'a Vec<ReturnSlot>,
    /// Slots to deduplicate rows by before they are returned.
    pub distinct_stages: &'a Vec<Vec<ReturnSlot>>,
    /// Whether returned rows are deduplicated.
    pub distinct: bool,
    /// Predicate on rows.
    pub predicate: &'a Option<Predicate>,
    /// Order of the rows.
    pub order_by: &'a Vec<SortBinding>,
    /// Number of rows to skip.
    pub skip: Option<u64>,
    /// Maximum rows to return.
    pub limit: Option<u64>,
}

/// What a shape holds.
pub struct ShapeView {
    pub optional: bool,
    pub source_table_oid: u32,
    pub source_label: Seq<char>,
    pub target_label: Seq<char>,
    pub rel_type: Seq<char>,
    pub slots: Seq<ReturnSlotView>,
    pub distinct_stages: Seq<Seq<ReturnSlotView>>,
    pub distinct: bool,
    pub predicate: Option<PredicateView>,
    pub order_by: Seq<SortBindingView>,
    pub skip: Option<u64>,
    pub limit: Option<u64>,
}

impl<'a> View for Shape<'a> {
    type V = ShapeView;

    open spec fn view(&self) -> ShapeView {
        ShapeView {
            optional: self.optional,
            source_table_oid: self.source_table_oid,
            source_label: self.source_label@,
            target_label: self.target_label@,
            rel_type: self.rel_type@,
            slots: views::views(self.slots@),
            distinct_stages: views::nested(self.distinct_stages@),
            distinct: self.distinct,
            predicate: views::some_view(*self.predicate),
            order_by: views::views(self.order_by@),
            skip: self.skip,
            limit: self.limit,
        }
    }
}

/// The shape of a relationship plan.
pub open spec fn plan_shape(plan: PhysicalPlanView) -> ShapeView {
    ShapeView {
        optional: plan.optional,
        source_table_oid: plan.source_table_oid,
        source_label: plan.source_label,
        target_label: plan.target_label,
        rel_type: plan.rel_type,
        slots: plan.returns,
        distinct_stages: plan.distinct_stages,
        distinct: plan.distinct,
        predicate: plan.predicate,
        order_by: plan.order_by,
        skip: plan.skip,
        limit: plan.limit,
    }
}

/// The shape of a relationship plan.
pub fn shape_of_plan<'a>(plan: &'a PhysicalPlan) -> (shape: Shape<'a>)
    ensures
        shape@ == plan_shape(plan@),
{
    Shape {
        optional: plan.optional,
        source_table_oid: plan.source_table_oid,
        source_label: plan.source_label.as_str(),
        target_label: plan.target_label.as_str(),
        rel_type: plan.rel_type.as_str(),
        slots: &plan.returns,
        distinct_stages: &plan.distinct_stages,
        distinct: plan.distinct,
        predicate: &plan.predicate,
        order_by: &plan.order_by,
        skip: plan.skip,
        limit: plan.limit,
    }
}

/// The shape of a node scan: the scanned node is the source.
pub open spec fn scan_shape(scan: PhysicalNodeScanView) -> ShapeView {
    ShapeView {
        optional: false,
        source_table_oid: scan.table_oid,
        source_label: scan.label,
        target_label: scan.label,
        rel_type: ""@,
        slots: scan.returns,
        distinct_stages: scan.distinct_stages,
        distinct: scan.distinct,
        predicate: scan.predicate,
        order_by: scan.order_by,
        skip: scan.skip,
        limit: scan.limit,
    }
}

/// The shape of a node scan.
pub fn shape_of_scan<'a>(scan: &'a PhysicalNodeScan) -> (shape: Shape<'a>)
    ensures
        shape@ == scan_shape(scan@),
{
    Shape {
        optional: false,
        source_table_oid: scan.table_oid,
        source_label: scan.label.as_str(),
        target_label: scan.label.as_str(),
        rel_type: "",
        slots: &scan.returns,
        distinct_stages: &scan.distinct_stages,
        distinct: scan.distinct,
        predicate: &scan.predicate,
        order_by: &scan.order_by,
        skip: scan.skip,
        limit: scan.limit,
    }
}

// ---------------------------------------------------------------------------
// Values
// ---------------------------------------------------------------------------

/// The label of a node by its table.
pub open spec fn table_label(shape: ShapeView, table_oid: u32) -> Seq<char> {
    if table_oid == shape.source_table_oid {
        shape.source_label
    } else {
        shape.target_label
    }
}

/// The label of a side of a match.
pub open spec fn side_label(shape: ShapeView, side: BindingSide, node: CoordinateView) -> Seq<char> {
    match side {
        BindingSide::Source => shape.source_label,
        BindingSide::Target => shape.target_label,
        BindingSide::PathNode(_) => table_label(shape, node.table_oid),
    }
}

/// The value that refers to a node.
pub open spec fn reference_json(label: Seq<char>, node_id: Seq<char>) -> JsonView {
    JsonView::Object(
        seq![("id"@, JsonView::Text(node_id)), ("table"@, JsonView::Text(label))],
    )
}

/// The members of a value, none where it is no object.
pub open spec fn members(value: JsonView) -> Seq<(Seq<char>, JsonView)> {
    match value {
        JsonView::Object(entries) => entries,
        _ => Seq::empty(),
    }
}

/// A node with what identifies it and its label.
pub open spec fn labeled_node(
    entries: Seq<(Seq<char>, JsonView)>,
    label: Seq<char>,
    node_id: Seq<char>,
) -> JsonView {
    JsonView::Object(
        json::with_entry(
            json::with_entry(entries, "_id"@, reference_json(label, node_id)),
            "_labels"@,
            JsonView::Array(seq![JsonView::Text(label)]),
        ),
    )
}

/// The value of a node, with the members of its source row where it is hydrated.
pub open spec fn node_json(
    sources: ValueSources,
    node: CoordinateView,
    label: Seq<char>,
    hydrate: bool,
) -> Result<JsonView, GraphErrorView> {
    if hydrate {
        match evaluate::source_row(sources, node) {
            Ok(row) => Ok(labeled_node(members(row), label, node.node_id)),
            Err(error) => Err(error),
        }
    } else {
        Ok(labeled_node(Seq::empty(), label, node.node_id))
    }
}

/// The value of a relationship.
pub open spec fn relationship_json(
    shape: ShapeView,
    rel_type: Seq<char>,
    start: CoordinateView,
    end: CoordinateView,
) -> JsonView {
    JsonView::Object(
        seq![
            ("_end"@, reference_json(table_label(shape, end.table_oid), end.node_id)),
            ("_start"@, reference_json(table_label(shape, start.table_oid), start.node_id)),
            ("_type"@, JsonView::Text(rel_type)),
        ],
    )
}

/// The values of the nodes from `from` on, after those done.
pub open spec fn nodes_json_from(
    shape: ShapeView,
    sources: ValueSources,
    nodes: Seq<CoordinateView>,
    hydrate: bool,
    from: int,
    done: Seq<JsonView>,
) -> Result<Seq<JsonView>, GraphErrorView>
    decreases nodes.len() - from,
{
    if from >= nodes.len() {
        Ok(done)
    } else {
        match node_json(
            sources,
            nodes[from],
            table_label(shape, nodes[from].table_oid),
            hydrate,
        ) {
            Ok(node) => nodes_json_from(shape, sources, nodes, hydrate, from + 1, done.push(node)),
            Err(error) => Err(error),
        }
    }
}

/// The values of path relationships.
pub open spec fn relationships_json(
    shape: ShapeView,
    relationships: Seq<PathRelationshipView>,
) -> Seq<JsonView> {
    relationships.map_values(
        |relationship: PathRelationshipView|
            relationship_json(
                shape,
                relationship.rel_type,
                relationship.start,
                relationship.end,
            ),
    )
}

/// The value of a path.
pub open spec fn path_json(nodes: Seq<JsonView>, relationships: Seq<JsonView>) -> JsonView {
    JsonView::Object(
        seq![
            (
                "_path"@,
                JsonView::Object(
                    seq![
                        ("nodes"@, JsonView::Array(nodes)),
                        ("relationships"@, JsonView::Array(relationships)),
                    ],
                ),
            ),
        ],
    )
}

/// The value of a slot for one row; null for an aggregate.
pub open spec fn slot_value(
    shape: ShapeView,
    sources: ValueSources,
    row: RowView,
    slot: ReturnSlotView,
    hydrate: bool,
) -> Result<JsonView, GraphErrorView> {
    match slot {
        ReturnSlotView::Node { side, .. } => match evaluate::side_of(row, side) {
            Some(node) => node_json(sources, node, side_label(shape, side, node), hydrate),
            None => Ok(JsonView::Null),
        },
        ReturnSlotView::Relationship { .. } => match (row.rel_start, row.rel_end) {
            (Some(start), Some(end)) => Ok(relationship_json(shape, shape.rel_type, start, end)),
            _ => Ok(JsonView::Null),
        },
        ReturnSlotView::Path { .. } => if row.target is None {
            Ok(JsonView::Null)
        } else {
            match nodes_json_from(shape, sources, row.path_nodes, hydrate, 0, Seq::empty()) {
                Ok(nodes) => Ok(
                    path_json(nodes, relationships_json(shape, row.path_relationships)),
                ),
                Err(error) => Err(error),
            }
        },
        ReturnSlotView::PathFunction { func, .. } => if row.target is None {
            Ok(JsonView::Null)
        } else {
            match func {
                PathFunc::Nodes => match nodes_json_from(
                    shape,
                    sources,
                    row.path_nodes,
                    hydrate,
                    0,
                    Seq::empty(),
                ) {
                    Ok(nodes) => Ok(JsonView::Array(nodes)),
                    Err(error) => Err(error),
                },
                PathFunc::Relationships => Ok(
                    JsonView::Array(relationships_json(shape, row.path_relationships)),
                ),
                PathFunc::Length => Ok(
                    JsonView::Number(NumberView::Int(row.path_relationships.len() as int)),
                ),
            }
        },
        ReturnSlotView::Property { side, property, .. } => match evaluate::node_property(
            sources,
            evaluate::side_of(row, side),
            property,
        ) {
            Ok(value) => Ok(evaluate::or_null(value)),
            Err(error) => Err(error),
        },
        ReturnSlotView::Aggregate { .. } => Ok(JsonView::Null),
    }
}

/// The values of the slots from `from` on, after those done.
pub open spec fn values_from(
    shape: ShapeView,
    sources: ValueSources,
    row: RowView,
    slots: Seq<ReturnSlotView>,
    hydrate: bool,
    from: int,
    done: Seq<JsonView>,
) -> Result<Seq<JsonView>, GraphErrorView>
    decreases slots.len() - from,
{
    if from >= slots.len() {
        Ok(done)
    } else {
        match slot_value(shape, sources, row, slots[from], hydrate) {
            Ok(value) => values_from(
                shape,
                sources,
                row,
                slots,
                hydrate,
                from + 1,
                done.push(value),
            ),
            Err(error) => Err(error),
        }
    }
}

/// The values of slots for one row.
pub open spec fn row_values(
    shape: ShapeView,
    sources: ValueSources,
    row: RowView,
    slots: Seq<ReturnSlotView>,
    hydrate: bool,
) -> Result<Seq<JsonView>, GraphErrorView> {
    values_from(shape, sources, row, slots, hydrate, 0, Seq::empty())
}

// ---------------------------------------------------------------------------
// Execution
// ---------------------------------------------------------------------------

/// What values are made with.
pub struct Projector<'a> {
    pub shape: Shape<'a>,
    pub reader: ValueReader<'a>,
    /// Whether returned nodes carry their source row.
    pub hydrate: bool,
}

fn reference(label: &str, node_id: &str) -> (value: Json)
    ensures
        value@ == reference_json(label@, node_id@),
{
    let mut entries: Vec<(String, Json)> = Vec::new();
    entries.push((owned("id"), Json::Text(owned(node_id))));
    entries.push((owned("table"), Json::Text(owned(label))));
    proof {
        json::lemma_object_view(entries);
        assert(json::entry_views(entries@) =~= seq![
            ("id"@, JsonView::Text(node_id@)),
            ("table"@, JsonView::Text(label@)),
        ]);
    }
    Json::Object(entries)
}

fn copy_members(value: &Json) -> (entries: Vec<(String, Json)>)
    ensures
        json::entry_views(entries@) == members(value@),
{
    match duplicate_json(value) {
        Json::Object(entries) => {
            proof {
                json::lemma_object_view(entries);
            }
            entries
        },
        _ => {
            let entries: Vec<(String, Json)> = Vec::new();
            assert(json::entry_views(entries@) =~= Seq::empty());
            entries
        },
    }
}

fn label_node(entries: Vec<(String, Json)>, label: &str, node_id: &str) -> (value: Json)
    ensures
        value@ == labeled_node(json::entry_views(entries@), label@, node_id@),
{
    let mut entries: Vec<(String, Json)> = entries;
    set_entry(&mut entries, owned("_id"), reference(label, node_id));
    let mut labels: Vec<Json> = Vec::new();
    labels.push(Json::Text(owned(label)));
    proof {
        json::lemma_array_view(labels);
        assert(views::views(labels@) =~= seq![JsonView::Text(label@)]);
    }
    set_entry(&mut entries, owned("_labels"), Json::Array(labels));
    proof {
        json::lemma_object_view(entries);
    }
    Json::Object(entries)
}

impl<'a> Projector<'a> {
    /// Whether the rows that values are read from are in order.
    pub open spec fn wf(&self) -> bool {
        self.reader.hydrated.wf()
    }

    /// What values are read from.
    pub open spec fn sources(&self) -> ValueSources {
        self.reader.sources()
    }

    fn label_of_table(&self, table_oid: u32) -> (label: &'a str)
        ensures
            label@ == table_label(self.shape@, table_oid),
    {
        if table_oid == self.shape.source_table_oid {
            self.shape.source_label
        } else {
            self.shape.target_label
        }
    }

    /// The value of a node.
    pub fn node_value(&self, node: &GqlNodeCoordinate, label: &str, hydrate: bool) -> (result:
        GraphResult<Json>)
        requires
            self.wf(),
        ensures
            safety::outcome(result) == node_json(self.sources(), node@, label@, hydrate),
    {
        if hydrate {
            let row: &Json = self.reader.row_of(node)?;
            Ok(label_node(copy_members(row), label, node.node_id.as_str()))
        } else {
            let none: Vec<(String, Json)> = Vec::new();
            assert(json::entry_views(none@) =~= Seq::empty());
            Ok(label_node(none, label, node.node_id.as_str()))
        }
    }

    /// The value of a relationship.
    pub fn relationship_value(
        &self,
        rel_type: &str,
        start: &GqlNodeCoordinate,
        end: &GqlNodeCoordinate,
    ) -> (value: Json)
        ensures
            value@ == relationship_json(self.shape@, rel_type@, start@, end@),
    {
        let mut entries: Vec<(String, Json)> = Vec::new();
        entries.push(
            (
                owned("_end"),
                reference(self.label_of_table(end.table_oid), end.node_id.as_str()),
            ),
        );
        entries.push(
            (
                owned("_start"),
                reference(self.label_of_table(start.table_oid), start.node_id.as_str()),
            ),
        );
        entries.push((owned("_type"), Json::Text(owned(rel_type))));
        proof {
            json::lemma_object_view(entries);
            assert(json::entry_views(entries@) =~= relationship_json(
                self.shape@,
                rel_type@,
                start@,
                end@,
            )->Object_0);
        }
        Json::Object(entries)
    }

    fn path_nodes(&self, nodes: &Vec<GqlNodeCoordinate>, hydrate: bool) -> (result: GraphResult<
        Vec<Json>,
    >)
        requires
            self.wf(),
        ensures
            match nodes_json_from(
                self.shape@,
                self.sources(),
                views::views(nodes@),
                hydrate,
                0,
                Seq::empty(),
            ) {
                Ok(values) => result matches Ok(given) && views::views(given@) == values,
                Err(error) => result matches Err(given) && given@ == error,
            },
    {
        let mut values: Vec<Json> = Vec::new();
        let ghost all = views::views(nodes@);
        assert(views::views(values@) =~= Seq::empty());
        for i in 0..nodes.len()
            invariant
                self.wf(),
                all == views::views(nodes@),
                nodes_json_from(
                    self.shape@,
                    self.sources(),
                    all,
                    hydrate,
                    i as int,
                    views::views(values@),
                ) == nodes_json_from(self.shape@, self.sources(), all, hydrate, 0, Seq::empty()),
        {
            let ghost earlier = values@;
            assert(all[i as int] == nodes@[i as int]@);
            let label: &str = self.label_of_table(nodes[i].table_oid);
            let value: Json = self.node_value(&nodes[i], label, hydrate)?;
            values.push(value);
            proof {
                views::lemma_push(earlier, value);
            }
        }
        Ok(values)
    }

    fn path_relationships(&self, relationships: &Vec<GqlPathRelationship>) -> (values: Vec<Json>)
        ensures
            views::views(values@) == relationships_json(
                self.shape@,
                views::views(relationships@),
            ),
    {
        let mut values: Vec<Json> = Vec::new();
        for i in 0..relationships.len()
            invariant
                values@.len() == i,
                forall|j: int|
                    0 <= j < i ==> (#[trigger] values@[j])@ == relationship_json(
                        self.shape@,
                        relationships@[j].rel_type@,
                        relationships@[j].start@,
                        relationships@[j].end@,
                    ),
        {
            let relationship: &GqlPathRelationship = &relationships[i];
            values.push(
                self.relationship_value(
                    relationship.rel_type.as_str(),
                    &relationship.start,
                    &relationship.end,
                ),
            );
        }
        assert(views::views(values@) =~= relationships_json(
            self.shape@,
            views::views(relationships@),
        ));
        values
    }

    fn path_function(&self, func: PathFunc, row: &GqlRow, hydrate: bool) -> (result: GraphResult<Json>)
        requires
            self.wf(),
        ensures
            forall|name: Seq<char>|
                safety::outcome(result) == #[trigger] slot_value(
                    self.shape@,
                    self.sources(),
                    row@,
                    ReturnSlotView::PathFunction { func, name },
                    hydrate,
                ),
    {
        if row.target.is_none() {
            return Ok(Json::Null);
        }
        match func {
            PathFunc::Nodes => {
                let nodes: Vec<Json> = self.path_nodes(&row.path_nodes, hydrate)?;
                proof {
                    json::lemma_array_view(nodes);
                }
                Ok(Json::Array(nodes))
            },
            PathFunc::Relationships => {
                let relationships: Vec<Json> = self.path_relationships(&row.path_relationships);
                proof {
                    json::lemma_array_view(relationships);
                }
                Ok(Json::Array(relationships))
            },
            PathFunc::Length => Ok(
                Json::Number(JsonNumber::UInt(row.path_relationships.len() as u64)),
            ),
        }
    }

    fn path_value(&self, row: &GqlRow, hydrate: bool) -> (result: GraphResult<Json>)
        requires
            self.wf(),
        ensures
            forall|name: Seq<char>|
                safety::outcome(result) == #[trigger] slot_value(
                    self.shape@,
                    self.sources(),
                    row@,
                    ReturnSlotView::Path { name },
                    hydrate,
                ),
    {
        if row.target.is_none() {
            return Ok(Json::Null);
        }
        let nodes: Vec<Json> = self.path_nodes(&row.path_nodes, hydrate)?;
        let relationships: Vec<Json> = self.path_relationships(&row.path_relationships);
        let ghost node_views = views::views(nodes@);
        let ghost relationship_views = views::views(relationships@);
        proof {
            json::lemma_array_view(nodes);
            json::lemma_array_view(relationships);
        }
        let mut inner: Vec<(String, Json)> = Vec::new();
        inner.push((owned("nodes"), Json::Array(nodes)));
        inner.push((owned("relationships"), Json::Array(relationships)));
        proof {
            json::lemma_object_view(inner);
            assert(json::entry_views(inner@) =~= seq![
                ("nodes"@, JsonView::Array(node_views)),
                ("relationships"@, JsonView::Array(relationship_views)),
            ]);
        }
        let mut outer: Vec<(String, Json)> = Vec::new();
        outer.push((owned("_path"), Json::Object(inner)));
        proof {
            json::lemma_object_view(outer);
            assert(json::entry_views(outer@) =~= path_json(
                node_views,
                relationship_views,
            )->Object_0);
        }
        Ok(Json::Object(outer))
    }

    /// The value of a slot for one row.
    pub fn value_of_slot(&self, row: &GqlRow, slot: &ReturnSlot, hydrate: bool) -> (result:
        GraphResult<Json>)
        requires
            self.wf(),
        ensures
            safety::outcome(result) == slot_value(
                self.shape@,
                self.sources(),
                row@,
                slot@,
                hydrate,
            ),
    {
        match slot {
            ReturnSlot::Node { side, .. } => match side_node(row, *side) {
                Some(node) => {
                    let label: &str = match *side {
                        BindingSide::Source => self.shape.source_label,
                        BindingSide::Target => self.shape.target_label,
                        BindingSide::PathNode(_) => self.label_of_table(node.table_oid),
                    };
                    self.node_value(node, label, hydrate)
                },
                None => Ok(Json::Null),
            },
            ReturnSlot::Relationship { .. } => match (&row.rel_start, &row.rel_end) {
                (Some(start), Some(end)) => Ok(
                    self.relationship_value(self.shape.rel_type, start, end),
                ),
                _ => Ok(Json::Null),
            },
            ReturnSlot::Path { .. } => self.path_value(row, hydrate),
            ReturnSlot::PathFunction { func, .. } => self.path_function(*func, row, hydrate),
            ReturnSlot::Property { side, property, .. } => {
                let value: Option<Json> = self.reader.property(
                    side_node(row, *side),
                    property.as_str(),
                )?;
                match value {
                    Some(value) => Ok(value),
                    None => Ok(Json::Null),
                }
            },
            ReturnSlot::Aggregate { .. } => Ok(Json::Null),
        }
    }

    /// The values of slots for one row.
    pub fn values_of_row(&self, row: &GqlRow, slots: &Vec<ReturnSlot>, hydrate: bool) -> (result:
        GraphResult<Vec<Json>>)
        requires
            self.wf(),
        ensures
            match row_values(
                self.shape@,
                self.sources(),
                row@,
                views::views(slots@),
                hydrate,
            ) {
                Ok(values) => result matches Ok(given) && views::views(given@) == values,
                Err(error) => result matches Err(given) && given@ == error,
            },
    {
        let mut values: Vec<Json> = Vec::new();
        let ghost all = views::views(slots@);
        assert(views::views(values@) =~= Seq::empty());
        for i in 0..slots.len()
            invariant
                self.wf(),
                all == views::views(slots@),
                values_from(
                    self.shape@,
                    self.sources(),
                    row@,
                    all,
                    hydrate,
                    i as int,
                    views::views(values@),
                ) == row_values(self.shape@, self.sources(), row@, all, hydrate),
        {
            let ghost earlier = values@;
            assert(all[i as int] == slots@[i as int]@);
            let value: Json = self.value_of_slot(row, &slots[i], hydrate)?;
            values.push(value);
            proof {
                views::lemma_push(earlier, value);
            }
        }
        Ok(values)
    }
}

} // verus!
