//! Objects keep their keys in order, and values are the same where they are equal.
use vstd::prelude::*;

use crate::query::aggregate::{self, GroupView};
use crate::query::evaluate::{self, ValueSources};
use crate::query::filter;
use crate::query::hydrate;
use crate::query::json::{self, in_key_order, keys_ascend, JsonView};
use crate::query::json_order;
use crate::query::logical_plan::{AggregateArgView, AggregateFunc};
use crate::query::names;
use crate::query::physical_plan::ReturnSlotView;
use crate::query::rows::{CoordinateView, RowView};
use crate::query::slots::{self, ShapeView};
use crate::query::value::{self, OutputView};
use crate::query::value_laws;
use crate::safety::GraphErrorView;

verus! {

/// Whether all values hold their entries by key.
pub open spec fn all_in_key_order(values: Seq<JsonView>) -> bool {
    forall|i: int| 0 <= i < values.len() ==> in_key_order(#[trigger] values[i])
}

/// Whether the source rows hold their entries by key.
pub open spec fn rows_in_key_order(hydrated: Map<(u32, Seq<char>), JsonView>) -> bool {
    forall|key: (u32, Seq<char>)| #[trigger]
        hydrated.contains_key(key) ==> in_key_order(hydrated[key])
}

// ---------------------------------------------------------------------------
// Entries
// ---------------------------------------------------------------------------

/// Where a key stands: after all lesser keys, and at or before all others.
pub proof fn lemma_entry_place(entries: Seq<(Seq<char>, JsonView)>, key: Seq<char>, from: int)
    requires
        0 <= from <= entries.len(),
        forall|i: int| 0 <= i < from ==> names::name_before((#[trigger] entries[i]).0, key),
    ensures
        ({
            let at = json::entry_place(entries, key, from);
            &&& from <= at <= entries.len()
            &&& forall|i: int| 0 <= i < at ==> names::name_before((#[trigger] entries[i]).0, key)
            &&& at < entries.len() ==> !names::name_before(entries[at].0, key)
        }),
    decreases entries.len() - from,
{
    if from < entries.len() && names::name_before(entries[from].0, key) {
        lemma_entry_place(entries, key, from + 1);
    }
}

/// Setting a key of an object keeps its entries by key, ascending, each key once.
pub proof fn lemma_with_entry_keeps_key_order(
    entries: Seq<(Seq<char>, JsonView)>,
    key: Seq<char>,
    value: JsonView,
)
    requires
        in_key_order(JsonView::Object(entries)),
        in_key_order(value),
    ensures
        in_key_order(JsonView::Object(json::with_entry(entries, key, value))),
        json::member(JsonView::Object(json::with_entry(entries, key, value)), key) == Some(value),
{
    lemma_entry_place(entries, key, 0);
    let at = json::entry_place(entries, key, 0);
    let more = json::with_entry(entries, key, value);
    if at < entries.len() {
        names::lemma_names_compare(entries[at].0, key);
    }
    if at < entries.len() && entries[at].0 == key {
        assert forall|i: int, j: int| 0 <= i < j < more.len() implies names::name_before(
            (#[trigger] more[i]).0,
            (#[trigger] more[j]).0,
        ) by {
            assert(names::name_before(entries[i].0, entries[j].0));
        }
        assert forall|i: int| #![trigger more[i]] 0 <= i < more.len() implies in_key_order(
            more[i].1,
        ) by {
            assert(in_key_order(entries[i].1));
        }
    } else {
        assert forall|i: int, j: int| 0 <= i < j < more.len() implies names::name_before(
            (#[trigger] more[i]).0,
            (#[trigger] more[j]).0,
        ) by {
            if j < at {
                assert(names::name_before(entries[i].0, entries[j].0));
            } else if j == at {
                assert(names::name_before(entries[i].0, key));
            } else {
                let later = entries[j - 1].0;
                assert(names::name_before(key, later)) by {
                    assert(names::name_before(key, entries[at].0));
                    if j - 1 > at {
                        assert(names::name_before(entries[at].0, later));
                        names::lemma_names_transitive(key, entries[at].0, later);
                    }
                }
                if i < at {
                    names::lemma_names_transitive(entries[i].0, key, later);
                } else if i > at {
                    assert(names::name_before(entries[i - 1].0, later));
                }
            }
        }
        assert forall|i: int| #![trigger more[i]] 0 <= i < more.len() implies in_key_order(
            more[i].1,
        ) by {
            if i < at {
                assert(in_key_order(entries[i].1));
            } else if i > at {
                assert(in_key_order(entries[i - 1].1));
            }
        }
    }
    assert(keys_ascend(more));
    lemma_key_found(more, at, 0);
}

/// A key that stands once is found where it stands.
proof fn lemma_key_found(entries: Seq<(Seq<char>, JsonView)>, at: int, from: int)
    requires
        keys_ascend(entries),
        0 <= from <= at < entries.len(),
    ensures
        json::entry_from(entries, entries[at].0, from) == Some(entries[at].1),
    decreases at - from,
{
    if from < at {
        assert(names::name_before(entries[from].0, entries[at].0));
        names::lemma_names_compare(entries[from].0, entries[at].0);
        lemma_key_found(entries, at, from + 1);
    }
}

/// In an object that holds its entries by key, every entry is found by its key.
pub proof fn lemma_every_entry_is_found(entries: Seq<(Seq<char>, JsonView)>, at: int)
    requires
        keys_ascend(entries),
        0 <= at < entries.len(),
    ensures
        json::member(JsonView::Object(entries), entries[at].0) == Some(entries[at].1),
{
    lemma_key_found(entries, at, 0);
}

proof fn lemma_entry_from(entries: Seq<(Seq<char>, JsonView)>, key: Seq<char>, from: int)
    requires
        in_key_order(JsonView::Object(entries)),
        0 <= from,
    ensures
        json::entry_from(entries, key, from) matches Some(found) ==> in_key_order(found),
    decreases entries.len() - from,
{
    if from < entries.len() {
        assert(in_key_order(entries[from].1));
        if entries[from].0 != key {
            lemma_entry_from(entries, key, from + 1);
        }
    }
}

proof fn lemma_member(value: JsonView, key: Seq<char>)
    requires
        in_key_order(value),
    ensures
        json::member(value, key) matches Some(found) ==> in_key_order(found),
{
    match value {
        JsonView::Object(entries) => {
            lemma_entry_from(entries, key, 0);
        },
        _ => {},
    }
}

proof fn lemma_property(value: JsonView, path: Seq<char>)
    requires
        in_key_order(value),
    ensures
        hydrate::property_of(value, path) matches Some(found) ==> in_key_order(found),
    decreases path.len(),
{
    lemma_member(value, path);
    if json::member(value, path) is None {
        match hydrate::dot_from(path, 0) {
            Some(at) => {
                if 0 <= at < path.len() {
                    let head = path.subrange(0, at);
                    lemma_member(value, head);
                    match json::member(value, head) {
                        Some(inner) => {
                            lemma_property(inner, path.subrange(at + 1, path.len() as int));
                        },
                        None => {},
                    }
                }
            },
            None => {},
        }
    }
}

// ---------------------------------------------------------------------------
// Slots
// ---------------------------------------------------------------------------

proof fn lemma_first_differs(a: Seq<char>, b: Seq<char>, at: int)
    requires
        0 <= at < a.len(),
        at < b.len(),
        forall|i: int| 0 <= i < at ==> a[i] == b[i],
        a[at] < b[at],
    ensures
        names::name_before(a, b),
    decreases at,
{
    if at > 0 {
        let x = a.skip(1);
        let y = b.skip(1);
        assert forall|i: int| 0 <= i < at - 1 implies x[i] == y[i] by {
            assert(a[i + 1] == b[i + 1]);
        }
        lemma_first_differs(x, y, at - 1);
    }
}

proof fn lemma_reference(label: Seq<char>, node_id: Seq<char>)
    ensures
        in_key_order(slots::reference_json(label, node_id)),
{
    reveal_strlit("id");
    reveal_strlit("table");
    lemma_first_differs("id"@, "table"@, 0);
    let entries = slots::reference_json(label, node_id)->Object_0;
    assert(keys_ascend(entries));
    assert(in_key_order(entries[0].1));
    assert(in_key_order(entries[1].1));
}

proof fn lemma_labeled_node(
    entries: Seq<(Seq<char>, JsonView)>,
    label: Seq<char>,
    node_id: Seq<char>,
)
    requires
        in_key_order(JsonView::Object(entries)),
    ensures
        in_key_order(slots::labeled_node(entries, label, node_id)),
{
    lemma_reference(label, node_id);
    lemma_with_entry_keeps_key_order(entries, "_id"@, slots::reference_json(label, node_id));
    let labels = JsonView::Array(seq![JsonView::Text(label)]);
    assert(in_key_order(labels)) by {
        assert(in_key_order(labels->Array_0[0]));
    }
    lemma_with_entry_keeps_key_order(
        json::with_entry(entries, "_id"@, slots::reference_json(label, node_id)),
        "_labels"@,
        labels,
    );
}

proof fn lemma_node(sources: ValueSources, node: CoordinateView, label: Seq<char>, hydrate: bool)
    requires
        rows_in_key_order(sources.hydrated),
    ensures
        slots::node_json(sources, node, label, hydrate) matches Ok(value) ==> in_key_order(value),
{
    if hydrate {
        match evaluate::source_row(sources, node) {
            Ok(row) => {
                assert(in_key_order(row));
                let entries = slots::members(row);
                assert(in_key_order(JsonView::Object(entries)));
                lemma_labeled_node(entries, label, node.node_id);
            },
            Err(_) => {},
        }
    } else {
        assert(in_key_order(JsonView::Object(Seq::empty())));
        lemma_labeled_node(Seq::empty(), label, node.node_id);
    }
}

proof fn lemma_relationship(
    shape: ShapeView,
    rel_type: Seq<char>,
    start: CoordinateView,
    end: CoordinateView,
)
    ensures
        in_key_order(slots::relationship_json(shape, rel_type, start, end)),
{
    reveal_strlit("_end");
    reveal_strlit("_start");
    reveal_strlit("_type");
    lemma_first_differs("_end"@, "_start"@, 1);
    lemma_first_differs("_start"@, "_type"@, 1);
    lemma_first_differs("_end"@, "_type"@, 1);
    lemma_reference(slots::table_label(shape, end.table_oid), end.node_id);
    lemma_reference(slots::table_label(shape, start.table_oid), start.node_id);
    let entries = slots::relationship_json(shape, rel_type, start, end)->Object_0;
    assert(keys_ascend(entries));
    assert(in_key_order(entries[0].1));
    assert(in_key_order(entries[1].1));
    assert(in_key_order(entries[2].1));
}

proof fn lemma_nodes(
    shape: ShapeView,
    sources: ValueSources,
    nodes: Seq<CoordinateView>,
    hydrate: bool,
    from: int,
    done: Seq<JsonView>,
)
    requires
        rows_in_key_order(sources.hydrated),
        all_in_key_order(done),
        0 <= from,
    ensures
        slots::nodes_json_from(shape, sources, nodes, hydrate, from, done) matches Ok(values)
            ==> all_in_key_order(values),
    decreases nodes.len() - from,
{
    if from < nodes.len() {
        let label = slots::table_label(shape, nodes[from].table_oid);
        lemma_node(sources, nodes[from], label, hydrate);
        match slots::node_json(sources, nodes[from], label, hydrate) {
            Ok(node) => {
                lemma_nodes(shape, sources, nodes, hydrate, from + 1, done.push(node));
            },
            Err(_) => {},
        }
    }
}

proof fn lemma_relationships(shape: ShapeView, row: RowView)
    ensures
        all_in_key_order(slots::relationships_json(shape, row.path_relationships)),
{
    let values = slots::relationships_json(shape, row.path_relationships);
    assert forall|i: int| 0 <= i < values.len() implies in_key_order(#[trigger] values[i]) by {
        let one = row.path_relationships[i];
        lemma_relationship(shape, one.rel_type, one.start, one.end);
    }
}

proof fn lemma_path(nodes: Seq<JsonView>, relationships: Seq<JsonView>)
    requires
        all_in_key_order(nodes),
        all_in_key_order(relationships),
    ensures
        in_key_order(slots::path_json(nodes, relationships)),
{
    reveal_strlit("nodes");
    reveal_strlit("relationships");
    lemma_first_differs("nodes"@, "relationships"@, 0);
    let outer = slots::path_json(nodes, relationships)->Object_0;
    let inner = outer[0].1->Object_0;
    assert(in_key_order(JsonView::Array(nodes)));
    assert(in_key_order(JsonView::Array(relationships)));
    assert(keys_ascend(inner));
    assert(in_key_order(inner[0].1));
    assert(in_key_order(inner[1].1));
    assert(in_key_order(outer[0].1));
}

/// The value of a slot holds its entries by key where the source rows do.
pub proof fn lemma_slot_value_in_key_order(
    shape: ShapeView,
    sources: ValueSources,
    row: RowView,
    slot: ReturnSlotView,
    hydrate: bool,
)
    requires
        rows_in_key_order(sources.hydrated),
    ensures
        slots::slot_value(shape, sources, row, slot, hydrate) matches Ok(value) ==> in_key_order(
            value,
        ),
{
    lemma_nodes(shape, sources, row.path_nodes, hydrate, 0, Seq::empty());
    lemma_relationships(shape, row);
    match slot {
        ReturnSlotView::Node { side, .. } => {
            match evaluate::side_of(row, side) {
                Some(node) => {
                    lemma_node(sources, node, slots::side_label(shape, side, node), hydrate);
                },
                None => {},
            }
        },
        ReturnSlotView::Relationship { .. } => {
            match (row.rel_start, row.rel_end) {
                (Some(start), Some(end)) => {
                    lemma_relationship(shape, shape.rel_type, start, end);
                },
                _ => {},
            }
        },
        ReturnSlotView::Path { .. } => {
            match slots::nodes_json_from(
                shape,
                sources,
                row.path_nodes,
                hydrate,
                0,
                Seq::empty(),
            ) {
                Ok(nodes) => {
                    lemma_path(nodes, slots::relationships_json(shape, row.path_relationships));
                },
                Err(_) => {},
            }
        },
        ReturnSlotView::PathFunction { .. } => {},
        ReturnSlotView::Property { side, property, .. } => {
            match evaluate::side_of(row, side) {
                Some(node) => match evaluate::source_row(sources, node) {
                    Ok(found) => {
                        assert(in_key_order(found));
                        lemma_property(found, property);
                    },
                    Err(_) => {},
                },
                None => {},
            }
        },
        ReturnSlotView::Aggregate { .. } => {},
    }
}

proof fn lemma_values(
    shape: ShapeView,
    sources: ValueSources,
    row: RowView,
    slots: Seq<ReturnSlotView>,
    hydrate: bool,
    from: int,
    done: Seq<JsonView>,
)
    requires
        rows_in_key_order(sources.hydrated),
        all_in_key_order(done),
        0 <= from,
    ensures
        slots::values_from(shape, sources, row, slots, hydrate, from, done) matches Ok(values)
            ==> all_in_key_order(values),
    decreases slots.len() - from,
{
    if from < slots.len() {
        lemma_slot_value_in_key_order(shape, sources, row, slots[from], hydrate);
        match slots::slot_value(shape, sources, row, slots[from], hydrate) {
            Ok(value) => {
                lemma_values(shape, sources, row, slots, hydrate, from + 1, done.push(value));
            },
            Err(_) => {},
        }
    }
}

// ---------------------------------------------------------------------------
// Aggregates
// ---------------------------------------------------------------------------

proof fn lemma_inputs_from(
    shape: ShapeView,
    sources: ValueSources,
    rows: Seq<RowView>,
    arg: AggregateArgView,
    hydrate: bool,
    from: int,
    done: Seq<JsonView>,
)
    requires
        rows_in_key_order(sources.hydrated),
        all_in_key_order(done),
        0 <= from,
    ensures
        aggregate::inputs_from(shape, sources, rows, arg, hydrate, from, done) matches Ok(values)
            ==> all_in_key_order(values),
    decreases rows.len() - from,
{
    if from < rows.len() {
        match aggregate::arg_value(shape, sources, rows[from], arg, hydrate) {
            Err(_) => {},
            Ok(value) => {
                assert(in_key_order(value)) by {
                    match arg {
                        AggregateArgView::All => {},
                        AggregateArgView::Node(side) => {
                            lemma_slot_value_in_key_order(
                                shape,
                                sources,
                                rows[from],
                                ReturnSlotView::Node { side, name: ""@ },
                                hydrate,
                            );
                        },
                        AggregateArgView::Relationship => {
                            lemma_slot_value_in_key_order(
                                shape,
                                sources,
                                rows[from],
                                ReturnSlotView::Relationship { name: ""@ },
                                hydrate,
                            );
                        },
                        AggregateArgView::Property { side, property } => {
                            lemma_slot_value_in_key_order(
                                shape,
                                sources,
                                rows[from],
                                ReturnSlotView::Property { side, property, name: ""@ },
                                hydrate,
                            );
                        },
                    }
                }
                let more = if value is Null {
                    done
                } else {
                    done.push(value)
                };
                lemma_inputs_from(shape, sources, rows, arg, hydrate, from + 1, more);
            },
        }
    }
}

proof fn lemma_unique_from(
    values: Seq<JsonView>,
    from: int,
    seen: Set<Seq<char>>,
    done: Seq<JsonView>,
)
    requires
        all_in_key_order(values),
        all_in_key_order(done),
        0 <= from,
    ensures
        aggregate::unique_from(values, from, seen, done) matches Ok(found) ==> all_in_key_order(
            found,
        ),
    decreases values.len() - from,
{
    if from < values.len() {
        let key = json_order::json_text(values[from]);
        lemma_unique_from(values, from + 1, seen, done);
        lemma_unique_from(values, from + 1, seen.insert(key), done.push(values[from]));
    }
}

proof fn lemma_extreme(values: Seq<JsonView>, from: int, best: JsonView, greatest: bool)
    requires
        all_in_key_order(values),
        in_key_order(best),
        0 <= from,
    ensures
        in_key_order(aggregate::extreme_from(values, from, best, greatest)),
    decreases values.len() - from,
{
    if from < values.len() {
        assert(in_key_order(values[from]));
        lemma_extreme(values, from + 1, values[from], greatest);
        lemma_extreme(values, from + 1, best, greatest);
    }
}

proof fn lemma_aggregate(func: AggregateFunc, values: Seq<JsonView>, sums: Seq<JsonView>, next: nat)
    requires
        all_in_key_order(values),
        all_in_key_order(sums),
    ensures
        in_key_order(aggregate::aggregate_value(func, values, aggregate::item_at(sums, next))),
{
    assert(in_key_order(JsonView::Array(values)));
    if next < sums.len() {
        assert(in_key_order(sums[next as int]));
    }
    if values.len() > 0 {
        assert(in_key_order(values[0]));
        lemma_extreme(values, 1, values[0], false);
        lemma_extreme(values, 1, values[0], true);
    }
}

proof fn lemma_group_values(
    shape: ShapeView,
    sources: ValueSources,
    rows: Seq<RowView>,
    hydrate: bool,
    sums: Seq<JsonView>,
    from: int,
    next: nat,
    done: Seq<JsonView>,
)
    requires
        rows_in_key_order(sources.hydrated),
        all_in_key_order(sums),
        all_in_key_order(done),
        0 <= from,
    ensures
        aggregate::group_values_from(
            shape,
            sources,
            rows,
            hydrate,
            sums,
            from,
            next,
            done,
        ) matches Ok((values, _)) ==> all_in_key_order(values),
    decreases shape.slots.len() - from,
{
    if from < shape.slots.len() {
        match shape.slots[from] {
            ReturnSlotView::Aggregate { func, arg, distinct, .. } => {
                match aggregate::inputs(shape, sources, rows, func, arg, distinct, hydrate) {
                    Err(_) => {},
                    Ok(values) => {
                        let wanted = hydrate && func is Collect;
                        lemma_inputs_from(shape, sources, rows, arg, wanted, 0, Seq::empty());
                        let all = aggregate::inputs_from(
                            shape,
                            sources,
                            rows,
                            arg,
                            wanted,
                            0,
                            Seq::empty(),
                        )->Ok_0;
                        lemma_unique_from(all, 0, Set::empty(), Seq::empty());
                        lemma_aggregate(func, values, sums, next);
                        let later = if aggregate::is_sum(func) {
                            next + 1
                        } else {
                            next
                        };
                        lemma_group_values(
                            shape,
                            sources,
                            rows,
                            hydrate,
                            sums,
                            from + 1,
                            later,
                            done.push(
                                aggregate::aggregate_value(
                                    func,
                                    values,
                                    aggregate::item_at(sums, next),
                                ),
                            ),
                        );
                    },
                }
            },
            slot => {
                if rows.len() == 0 {
                    lemma_group_values(
                        shape,
                        sources,
                        rows,
                        hydrate,
                        sums,
                        from + 1,
                        next,
                        done.push(JsonView::Null),
                    );
                } else {
                    lemma_slot_value_in_key_order(shape, sources, rows[0], slot, hydrate);
                    match slots::slot_value(shape, sources, rows[0], slot, hydrate) {
                        Err(_) => {},
                        Ok(value) => {
                            lemma_group_values(
                                shape,
                                sources,
                                rows,
                                hydrate,
                                sums,
                                from + 1,
                                next,
                                done.push(value),
                            );
                        },
                    }
                }
            },
        }
    }
}

// ---------------------------------------------------------------------------
// Reads
// ---------------------------------------------------------------------------

spec fn outputs_in_key_order(found: Seq<OutputView>) -> bool {
    forall|i: int| 0 <= i < found.len() ==> all_in_key_order((#[trigger] found[i]).values)
}

proof fn lemma_row_outputs(
    shape: ShapeView,
    sources: ValueSources,
    rows: Seq<RowView>,
    hydrate: bool,
    from: int,
    done: Seq<OutputView>,
)
    requires
        rows_in_key_order(sources.hydrated),
        outputs_in_key_order(done),
        0 <= from,
    ensures
        value::row_outputs_from(shape, sources, rows, hydrate, from, done) matches Ok(found)
            ==> outputs_in_key_order(found),
    decreases rows.len() - from,
{
    if from < rows.len() {
        lemma_values(shape, sources, rows[from], shape.slots, hydrate, 0, Seq::empty());
        match slots::row_values(shape, sources, rows[from], shape.slots, hydrate) {
            Err(_) => {},
            Ok(values) => match value::sort_values_from(
                shape,
                sources,
                Some(rows[from]),
                values,
                0,
                Seq::empty(),
            ) {
                Err(_) => {},
                Ok(sort) => {
                    lemma_row_outputs(
                        shape,
                        sources,
                        rows,
                        hydrate,
                        from + 1,
                        done.push(OutputView { values, sort }),
                    );
                },
            },
        }
    }
}

proof fn lemma_group_outputs(
    shape: ShapeView,
    sources: ValueSources,
    groups: Seq<GroupView>,
    hydrate: bool,
    sums: Seq<JsonView>,
    from: int,
    next: nat,
    done: Seq<OutputView>,
)
    requires
        rows_in_key_order(sources.hydrated),
        all_in_key_order(sums),
        outputs_in_key_order(done),
        0 <= from,
    ensures
        value::group_outputs_from(
            shape,
            sources,
            groups,
            hydrate,
            sums,
            from,
            next,
            done,
        ) matches Ok(found) ==> outputs_in_key_order(found),
    decreases groups.len() - from,
{
    if from < groups.len() {
        let rows = groups[from].rows;
        lemma_group_values(shape, sources, rows, hydrate, sums, 0, next, Seq::empty());
        match aggregate::group_values_from(
            shape,
            sources,
            rows,
            hydrate,
            sums,
            0,
            next,
            Seq::empty(),
        ) {
            Err(_) => {},
            Ok((values, later)) => match value::sort_values_from(
                shape,
                sources,
                value::first_row(rows),
                values,
                0,
                Seq::empty(),
            ) {
                Err(_) => {},
                Ok(sort) => {
                    lemma_group_outputs(
                        shape,
                        sources,
                        groups,
                        hydrate,
                        sums,
                        from + 1,
                        later,
                        done.push(OutputView { values, sort }),
                    );
                },
            },
        }
    }
}

proof fn lemma_distinct(
    found: Seq<OutputView>,
    from: int,
    seen: Set<Seq<char>>,
    done: Seq<OutputView>,
)
    requires
        outputs_in_key_order(found),
        outputs_in_key_order(done),
        0 <= from,
    ensures
        value::distinct_from(found, from, seen, done) matches Ok(kept) ==> outputs_in_key_order(
            kept,
        ),
    decreases found.len() - from,
{
    if from < found.len() {
        let key = filter::key_text(found[from].values);
        lemma_distinct(found, from + 1, seen, done);
        lemma_distinct(found, from + 1, seen.insert(key), done.push(found[from]));
    }
}

proof fn lemma_entries(
    slots: Seq<ReturnSlotView>,
    values: Seq<JsonView>,
    from: int,
    entries: Seq<(Seq<char>, JsonView)>,
)
    requires
        all_in_key_order(values),
        in_key_order(JsonView::Object(entries)),
        0 <= from,
    ensures
        in_key_order(JsonView::Object(value::entries_from(slots, values, from, entries))),
    decreases slots.len() - from,
{
    if from < slots.len() && from < values.len() {
        let name = value::slot_name(slots[from]);
        assert(in_key_order(values[from]));
        lemma_with_entry_keeps_key_order(entries, name, values[from]);
        lemma_entries(
            slots,
            values,
            from + 1,
            json::with_entry(entries, name, values[from]),
        );
    }
}

proof fn lemma_finished(shape: ShapeView, found: Seq<OutputView>)
    requires
        outputs_in_key_order(found),
    ensures
        value::finished(shape, found) matches Ok(values) ==> all_in_key_order(values),
{
    lemma_distinct(found, 0, Set::empty(), Seq::empty());
    let kept = if shape.distinct {
        value::distinct_from(found, 0, Set::empty(), Seq::empty())
    } else {
        Ok::<Seq<OutputView>, GraphErrorView>(found)
    };
    match kept {
        Err(_) => {},
        Ok(kept) => {
            let sorted = if shape.order_by.len() > 0 {
                value::sorted_outputs(shape.order_by, kept, kept.len())
            } else {
                kept
            };
            assert(outputs_in_key_order(sorted)) by {
                if shape.order_by.len() > 0 {
                    value_laws::lemma_sorting(shape.order_by, kept, kept.len());
                    assert(kept.take(kept.len() as int) =~= kept);
                    assert forall|i: int| 0 <= i < sorted.len() implies all_in_key_order(
                        (#[trigger] sorted[i]).values,
                    ) by {
                        broadcast use vstd::seq_lib::group_to_multiset_ensures;

                        assert(sorted.contains(sorted[i]));
                        assert(sorted.to_multiset().count(sorted[i]) > 0);
                        assert(kept.contains(sorted[i]));
                        let k = kept.index_of(sorted[i]);
                        assert(all_in_key_order(kept[k].values));
                    }
                }
            }
            let shown = value::window(sorted, shape.skip, shape.limit);
            let values = value::finished(shape, found)->Ok_0;
            assert forall|i: int| 0 <= i < values.len() implies in_key_order(
                #[trigger] values[i],
            ) by {
                let start = match shape.skip {
                    Some(skip) => value::least(skip as int, sorted.len() as int),
                    None => 0,
                };
                assert(shown[i] == sorted[start + i]);
                assert(all_in_key_order(sorted[start + i].values));
                assert(in_key_order(JsonView::Object(Seq::empty())));
                lemma_entries(shape.slots, shown[i].values, 0, Seq::empty());
                assert(values[i] == value::output_json(shape.slots, shown[i]));
            }
        },
    }
}

/// The values of a read hold their entries by key, ascending, each key once, where the
/// source rows and the given sums do.
pub proof fn lemma_projected_in_key_order(
    shape: ShapeView,
    sources: ValueSources,
    rows: Seq<RowView>,
    hydrate: bool,
    sums: Seq<JsonView>,
)
    requires
        rows_in_key_order(sources.hydrated),
        all_in_key_order(sums),
    ensures
        value::projected(shape, sources, rows, hydrate, sums) matches Ok(values)
            ==> all_in_key_order(values),
{
    match value::prepared(shape, sources, rows) {
        Err(_) => {},
        Ok(kept) => {
            if aggregate::aggregates(shape.slots) {
                match aggregate::grouped(shape, sources, kept) {
                    Err(_) => {},
                    Ok(groups) => {
                        lemma_group_outputs(
                            shape,
                            sources,
                            groups,
                            hydrate,
                            sums,
                            0,
                            0,
                            Seq::empty(),
                        );
                    },
                }
            } else {
                lemma_row_outputs(shape, sources, kept, hydrate, 0, Seq::empty());
            }
            match value::outputs(shape, sources, kept, hydrate, sums) {
                Err(_) => {},
                Ok(found) => {
                    lemma_finished(shape, found);
                },
            }
        },
    }
}

// ---------------------------------------------------------------------------
// Equality
// ---------------------------------------------------------------------------

/// Whether no floating-point number occurs in a value.
pub open spec fn is_exact(value: JsonView) -> bool
    decreases value,
{
    match value {
        JsonView::Number(number) => number is Int,
        JsonView::Array(items) => forall|i: int|
            0 <= i < items.len() ==> is_exact(#[trigger] items[i]),
        JsonView::Object(entries) => forall|i: int|
            #![trigger entries[i]]
            0 <= i < entries.len() ==> is_exact(entries[i].1),
        _ => true,
    }
}

/// Values without floating-point numbers are the same exactly where they are equal.
pub proof fn lemma_exact_values_are_the_same_where_equal(a: JsonView, b: JsonView)
    requires
        is_exact(a),
    ensures
        json::same_json(a, b) <==> a == b,
    decreases a,
{
    match (a, b) {
        (JsonView::Array(x), JsonView::Array(y)) => {
            if x.len() == y.len() {
                assert forall|i: int| 0 <= i < x.len() implies json::same_json(
                    #[trigger] x[i],
                    y[i],
                ) == (x[i] == y[i]) by {
                    lemma_exact_values_are_the_same_where_equal(x[i], y[i]);
                }
                if json::same_json(a, b) {
                    assert(x =~= y);
                }
            }
        },
        (JsonView::Object(x), JsonView::Object(y)) => {
            if x.len() == y.len() {
                assert forall|i: int|
                    #![trigger x[i]]
                    0 <= i < x.len() implies json::same_json(x[i].1, y[i].1) == (x[i].1
                    == y[i].1) by {
                    lemma_exact_values_are_the_same_where_equal(x[i].1, y[i].1);
                }
                if json::same_json(a, b) {
                    assert(x =~= y);
                }
            }
        },
        _ => {},
    }
}

/// Two values are the same either way round.
pub proof fn lemma_sameness_goes_both_ways(a: JsonView, b: JsonView)
    ensures
        json::same_json(a, b) == json::same_json(b, a),
    decreases a,
{
    match (a, b) {
        (JsonView::Array(x), JsonView::Array(y)) => {
            if x.len() == y.len() {
                assert forall|i: int| 0 <= i < x.len() implies json::same_json(
                    #[trigger] x[i],
                    #[trigger] y[i],
                ) == json::same_json(y[i], x[i]) by {
                    lemma_sameness_goes_both_ways(x[i], y[i]);
                }
            }
        },
        (JsonView::Object(x), JsonView::Object(y)) => {
            if x.len() == y.len() {
                assert forall|i: int|
                    #![trigger x[i]]
                    #![trigger y[i]]
                    0 <= i < x.len() implies json::same_json(x[i].1, y[i].1) == json::same_json(
                    y[i].1,
                    x[i].1,
                ) by {
                    lemma_sameness_goes_both_ways(x[i].1, y[i].1);
                }
            }
        },
        _ => {},
    }
}

} // verus!
