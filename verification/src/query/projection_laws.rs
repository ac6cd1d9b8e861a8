//! What the results of reads hold.
use vstd::prelude::*;

use crate::query::aggregate;
use crate::query::evaluate::ValueSources;
use crate::query::filter;
use crate::query::hydrate;
use crate::query::json::{self, keys_ascend, JsonView, NumberView};
use crate::query::json_laws;
use crate::query::json_order::{self, JsonOrder};
use crate::query::logical_plan::{BindingSide, PathFunc, SortBindingKeyView, SortBindingView};
use crate::query::names;
use crate::query::physical_plan::{PhysicalPlanView, ReturnSlotView};
use crate::query::rows::{CoordinateView, RowView};
use crate::query::slots::{self, ShapeView};
use crate::query::value::{self, OutputView};
use crate::query::value_laws;
use crate::safety::GraphErrorView;

verus! {

// ---------------------------------------------------------------------------
// Members
// ---------------------------------------------------------------------------

/// Whether an object has a member of a name with a value.
pub open spec fn has(value: JsonView, name: Seq<char>, inner: JsonView) -> bool {
    value matches JsonView::Object(entries) && entries.contains((name, inner))
}

/// Setting a member replaces the member of that name, or is one more, and keeps the
/// others.
pub proof fn lemma_set_member(
    entries: Seq<(Seq<char>, JsonView)>,
    key: Seq<char>,
    value: JsonView,
    name: Seq<char>,
    inner: JsonView,
)
    requires
        keys_ascend(entries),
    ensures
        keys_ascend(json::with_entry(entries, key, value)),
        has(JsonView::Object(json::with_entry(entries, key, value)), name, inner) <==> (if name
            == key {
            inner == value
        } else {
            has(JsonView::Object(entries), name, inner)
        }),
{
    json_laws::lemma_entry_place(entries, key, 0);
    let at = json::entry_place(entries, key, 0);
    let more = json::with_entry(entries, key, value);
    let entry = (name, inner);
    if at < entries.len() {
        names::lemma_names_compare(entries[at].0, key);
    }
    let found = at < entries.len() && entries[at].0 == key;
    lemma_set_keeps_order(entries, key, value);
    assert(more[at] == (key, value));
    assert forall|i: int| 0 <= i < more.len() && i != at implies (#[trigger] more[i]).0 != key by {
        if i < at {
            assert(names::name_before(more[i].0, more[at].0));
            names::lemma_names_compare(more[i].0, more[at].0);
        } else {
            assert(names::name_before(more[at].0, more[i].0));
            names::lemma_names_compare(more[at].0, more[i].0);
        }
    }
    if more.contains(entry) && name != key {
        let i = choose|i: int| 0 <= i < more.len() && more[i] == entry;
        if i < at || found {
            assert(entries[i] == entry);
        } else {
            assert(entries[i - 1] == entry);
        }
    }
    if entries.contains(entry) && name != key {
        let i = choose|i: int| 0 <= i < entries.len() && entries[i] == entry;
        if i < at || found {
            assert(more[i] == entry);
        } else {
            assert(more[i + 1] == entry);
        }
    }
}

proof fn lemma_set_keeps_order(
    entries: Seq<(Seq<char>, JsonView)>,
    key: Seq<char>,
    value: JsonView,
)
    requires
        keys_ascend(entries),
    ensures
        keys_ascend(json::with_entry(entries, key, value)),
{
    json_laws::lemma_entry_place(entries, key, 0);
    let at = json::entry_place(entries, key, 0);
    let more = json::with_entry(entries, key, value);
    if at < entries.len() {
        names::lemma_names_compare(entries[at].0, key);
    }
    if at < entries.len() && entries[at].0 == key {
        assert forall|i: int, j: int| 0 <= i < j < more.len() implies names::name_before(
            (#[trigger] more[i]).0,
            (#[trigger] more[j]).0,
        ) by {
            assert(names::name_before(entries[i].0, entries[j].0));
        }
    } else {
        assert forall|i: int, j: int| 0 <= i < j < more.len() implies names::name_before(
            (#[trigger] more[i]).0,
            (#[trigger] more[j]).0,
        ) by {
            if j < at {
                assert(names::name_before(entries[i].0, entries[j].0));
            } else if j == at {
                assert(names::name_before(entries[i].0, key));
            } else {
                let later = entries[j - 1].0;
                assert(names::name_before(key, later)) by {
                    assert(names::name_before(key, entries[at].0));
                    if j - 1 > at {
                        assert(names::name_before(entries[at].0, later));
                        names::lemma_names_transitive(key, entries[at].0, later);
                    }
                }
                if i < at {
                    names::lemma_names_transitive(entries[i].0, key, later);
                } else if i > at {
                    assert(names::name_before(entries[i - 1].0, later));
                }
            }
        }
    }
}

/// The name that a slot returns its value under.
pub open spec fn name_given(slot: ReturnSlotView) -> Seq<char> {
    match slot {
        ReturnSlotView::Node { side, name } => name,
        ReturnSlotView::Relationship { name } => name,
        ReturnSlotView::Path { name } => name,
        ReturnSlotView::PathFunction { func, name } => name,
        ReturnSlotView::Property { side, property, name } => name,
        ReturnSlotView::Aggregate { func, arg, distinct, name } => name,
    }
}

/// Whether slot `at` is the last of the first `count` that has a name.
pub open spec fn last_of_name(
    slots: Seq<ReturnSlotView>,
    name: Seq<char>,
    count: int,
    at: int,
) -> bool {
    &&& 0 <= at < count
    &&& name_given(slots[at]) == name
    &&& forall|i: int| at < i < count ==> name_given(#[trigger] slots[i]) != name
}

proof fn lemma_entries(
    slots: Seq<ReturnSlotView>,
    values: Seq<JsonView>,
    from: int,
    entries: Seq<(Seq<char>, JsonView)>,
    name: Seq<char>,
    inner: JsonView,
)
    requires
        0 <= from <= slots.len(),
        values.len() == slots.len(),
        keys_ascend(entries),
        has(JsonView::Object(entries), name, inner) <==> exists|at: int| #[trigger]
            last_of_name(slots, name, from, at) && values[at] == inner,
    ensures
        has(
            JsonView::Object(value::entries_from(slots, values, from, entries)),
            name,
            inner,
        ) <==> exists|at: int| #[trigger]
            last_of_name(slots, name, slots.len() as int, at) && values[at] == inner,
    decreases slots.len() - from,
{
    if from < slots.len() {
        let key = value::slot_name(slots[from]);
        let more = json::with_entry(entries, key, values[from]);
        lemma_set_member(entries, key, values[from], name, inner);
        if name == key {
            assert(last_of_name(slots, name, from + 1, from));
            assert forall|at: int| #[trigger] last_of_name(slots, name, from + 1, at) implies at
                == from by {
                if at < from {
                    assert(name_given(slots[from]) != name);
                }
            }
        } else {
            assert forall|at: int| #[trigger] last_of_name(slots, name, from + 1, at) implies
                last_of_name(slots, name, from, at) by {}
            assert forall|at: int| #[trigger] last_of_name(slots, name, from, at) implies
                last_of_name(slots, name, from + 1, at) by {}
        }
        lemma_entries(slots, values, from + 1, more, name, inner);
    }
}

/// A result has exactly the members that its slots name, each with the value of the last
/// slot of that name.
pub proof fn lemma_result_holds_values_by_name(
    slots: Seq<ReturnSlotView>,
    output: OutputView,
    name: Seq<char>,
    inner: JsonView,
)
    requires
        output.values.len() == slots.len(),
    ensures
        value::output_json(slots, output) is Object,
        has(value::output_json(slots, output), name, inner) <==> exists|at: int| #[trigger]
            last_of_name(slots, name, slots.len() as int, at) && output.values[at] == inner,
{
    assert forall|at: int| !#[trigger] last_of_name(slots, name, 0, at) by {}
    lemma_entries(slots, output.values, 0, Seq::empty(), name, inner);
}

// ---------------------------------------------------------------------------
// Window
// ---------------------------------------------------------------------------

/// Without deduplication and order the results are the outputs after those skipped, in
/// their order, up to the limit.
pub proof fn lemma_results_are_the_window(shape: ShapeView, found: Seq<OutputView>)
    requires
        !shape.distinct,
        shape.order_by.len() == 0,
    ensures
        value::finished(shape, found) is Ok,
        ({
            let results = value::finished(shape, found)->Ok_0;
            let skipped: int = if let Some(skip) = shape.skip {
                skip as int
            } else {
                0
            };
            &&& forall|k: int|
                0 <= k < results.len() ==> skipped + k < found.len() && #[trigger] results[k]
                    == value::output_json(shape.slots, found[skipped + k])
            &&& shape.limit is None && skipped <= found.len() ==> results.len() == found.len()
                - skipped
            &&& skipped >= found.len() ==> results.len() == 0
            &&& shape.limit matches Some(limit) ==> (results.len() == limit || (results.len()
                < limit && results.len() + skipped >= found.len()))
        }),
{
}

// ---------------------------------------------------------------------------
// Order
// ---------------------------------------------------------------------------

/// Whether two outputs first differ at a sort key.
pub open spec fn first_differ(a: OutputView, b: OutputView, p: int) -> bool {
    &&& 0 <= p < a.sort.len()
    &&& !(json_order::total_order(a.sort[p], b.sort[p]) is Equal)
    &&& forall|i: int|
        0 <= i < p ==> json_order::total_order(#[trigger] a.sort[i], b.sort[i]) is Equal
}

proof fn lemma_order_from(
    order_by: Seq<SortBindingView>,
    a: OutputView,
    b: OutputView,
    from: int,
    p: int,
)
    requires
        a.sort.len() == order_by.len(),
        b.sort.len() == order_by.len(),
        first_differ(a, b, p),
        0 <= from <= p,
    ensures
        ({
            let order = json_order::total_order(a.sort[p], b.sort[p]);
            value::output_order(order_by, a, b, from) == (if order_by[p].desc {
                if order is Less {
                    JsonOrder::Greater
                } else {
                    JsonOrder::Less
                }
            } else {
                order
            })
        }),
    decreases p - from,
{
    if from < p {
        assert(json_order::total_order(a.sort[from], b.sort[from]) is Equal);
        lemma_order_from(order_by, a, b, from + 1, p);
    }
}

proof fn lemma_no_difference(
    order_by: Seq<SortBindingView>,
    a: OutputView,
    b: OutputView,
    from: int,
)
    requires
        a.sort.len() == order_by.len(),
        b.sort.len() == order_by.len(),
        forall|i: int|
            0 <= i < a.sort.len() ==> json_order::total_order(
                #[trigger] a.sort[i],
                b.sort[i],
            ) is Equal,
        0 <= from,
    ensures
        value::output_order(order_by, a, b, from) is Equal,
    decreases order_by.len() - from,
{
    if from < order_by.len() {
        assert(json_order::total_order(a.sort[from], b.sort[from]) is Equal);
        lemma_no_difference(order_by, a, b, from + 1);
    }
}

/// Outputs stand in the order of the first sort key in which they differ, the other way
/// round where that key is descending; outputs that differ in no key stand the same.
pub proof fn lemma_first_difference_decides(
    order_by: Seq<SortBindingView>,
    a: OutputView,
    b: OutputView,
    p: int,
)
    requires
        a.sort.len() == order_by.len(),
        b.sort.len() == order_by.len(),
    ensures
        first_differ(a, b, p) ==> {
            let order = value::output_order(order_by, a, b, 0);
            let standing = json_order::total_order(a.sort[p], b.sort[p]);
            &&& order is Less <==> (if order_by[p].desc {
                standing is Greater
            } else {
                standing is Less
            })
            &&& !(order is Equal)
        },
        (forall|i: int|
            0 <= i < a.sort.len() ==> json_order::total_order(
                #[trigger] a.sort[i],
                b.sort[i],
            ) is Equal) ==> value::output_order(order_by, a, b, 0) is Equal,
{
    if first_differ(a, b, p) {
        lemma_order_from(order_by, a, b, 0, p);
    }
    if forall|i: int|
        0 <= i < a.sort.len() ==> json_order::total_order(#[trigger] a.sort[i], b.sort[i]) is Equal {
        lemma_no_difference(order_by, a, b, 0);
    }
}

/// The integer that an output is sorted by first.
pub open spec fn first_integer(output: OutputView) -> int {
    output.sort[0]->Number_0->Int_0
}

/// Whether an output is sorted by an integer first.
pub open spec fn sorted_by_integer(output: OutputView) -> bool {
    output.sort.len() > 0 && output.sort[0] is Number && output.sort[0]->Number_0 is Int
}

/// Outputs that are sorted by integers come with ascending integers, or with descending
/// ones where the key is descending.
pub proof fn lemma_integers_come_sorted(
    order_by: Seq<SortBindingView>,
    outputs: Seq<OutputView>,
    i: int,
    j: int,
)
    requires
        order_by.len() > 0,
        forall|k: int|
            0 <= k < outputs.len() ==> sorted_by_integer(#[trigger] outputs[k])
                && outputs[k].sort.len() == order_by.len(),
        0 <= i < j < outputs.len(),
    ensures
        ({
            let sorted = value::sorted_outputs(order_by, outputs, outputs.len());
            &&& sorted.len() == outputs.len()
            &&& outputs.contains(sorted[i])
            &&& !order_by[0].desc ==> first_integer(sorted[i]) <= first_integer(sorted[j])
            &&& order_by[0].desc ==> first_integer(sorted[i]) >= first_integer(sorted[j])
        }),
    decreases j - i,
{
    let sorted = value::sorted_outputs(order_by, outputs, outputs.len());
    value_laws::lemma_sorting(order_by, outputs, outputs.len());
    assert(outputs.take(outputs.len() as int) =~= outputs);
    sorted.to_multiset_ensures();
    outputs.to_multiset_ensures();
    assert forall|k: int| 0 <= k < sorted.len() implies outputs.contains(#[trigger] sorted[k]) by {
        assert(sorted.contains(sorted[k]));
        assert(sorted.to_multiset().contains(sorted[k]));
    }
    if i + 1 < j {
        lemma_integers_come_sorted(order_by, outputs, i, j - 1);
    }
    assert(value_laws::follows(order_by, sorted, j));
    assert(outputs.contains(sorted[j]) && outputs.contains(sorted[j - 1]));
    assert(sorted_by_integer(sorted[j]) && sorted_by_integer(sorted[j - 1]));
    if first_integer(sorted[j]) != first_integer(sorted[j - 1]) {
        assert(first_differ(sorted[j], sorted[j - 1], 0));
        lemma_order_from(order_by, sorted[j], sorted[j - 1], 0, 0);
    }
}

// ---------------------------------------------------------------------------
// Deduplication
// ---------------------------------------------------------------------------

/// Whether an output has the values of one of those done.
pub open spec fn among(done: Seq<OutputView>, output: OutputView) -> bool {
    exists|k: int|
        0 <= k < done.len() && filter::key_text((#[trigger] done[k]).values) == filter::key_text(
            output.values,
        )
}

proof fn lemma_kept_from(
    found: Seq<OutputView>,
    from: int,
    seen: Set<Seq<char>>,
    done: Seq<OutputView>,
    i: int,
)
    requires
        0 <= from <= found.len(),
        0 <= i < found.len(),
        i < from ==> among(done, found[i]),
        forall|key: Seq<char>| #[trigger]
            seen.contains(key) ==> exists|k: int|
                0 <= k < done.len() && filter::key_text((#[trigger] done[k]).values) == key,
        forall|k: int| 0 <= k < done.len() ==> found.contains(#[trigger] done[k]),
        value::distinct_from(found, from, seen, done) is Ok,
    ensures
        among(value::distinct_from(found, from, seen, done)->Ok_0, found[i]),
        forall|k: int|
            0 <= k < value::distinct_from(found, from, seen, done)->Ok_0.len() ==> found.contains(
                #[trigger] value::distinct_from(found, from, seen, done)->Ok_0[k],
            ),
    decreases found.len() - from,
{
    if from < found.len() {
        let key = filter::key_text(found[from].values);
        if seen.contains(key) {
            lemma_kept_from(found, from + 1, seen, done, i);
        } else {
            let more = done.push(found[from]);
            assert(more[done.len() as int] == found[from]);
            if i < from {
                let k = choose|k: int|
                    0 <= k < done.len() && filter::key_text((#[trigger] done[k]).values)
                        == filter::key_text(found[i].values);
                assert(more[k] == done[k]);
            }
            assert forall|other: Seq<char>| #[trigger] seen.insert(key).contains(other) implies exists|
                k: int,
            |
                0 <= k < more.len() && filter::key_text((#[trigger] more[k]).values) == other by {
                if other != key {
                    assert(seen.contains(other));
                    let k = choose|k: int|
                        0 <= k < done.len() && filter::key_text((#[trigger] done[k]).values)
                            == other;
                    assert(more[k] == done[k]);
                } else {
                    assert(filter::key_text(more[done.len() as int].values) == other);
                }
            }
            assert forall|k: int| 0 <= k < more.len() implies found.contains(#[trigger] more[k]) by {
                if k < done.len() {
                    assert(more[k] == done[k]);
                }
            }
            lemma_kept_from(found, from + 1, seen.insert(key), more, i);
        }
    }
}

/// Deduplication keeps outputs that were found, and of every output one with its values.
pub proof fn lemma_distinct_keeps_every_value(found: Seq<OutputView>, i: int)
    requires
        0 <= i < found.len(),
        value::distinct_from(found, 0, Set::empty(), Seq::empty()) is Ok,
    ensures
        ({
            let kept = value::distinct_from(found, 0, Set::empty(), Seq::empty())->Ok_0;
            &&& among(kept, found[i])
            &&& forall|k: int| 0 <= k < kept.len() ==> found.contains(#[trigger] kept[k])
        }),
{
    lemma_kept_from(found, 0, Set::empty(), Seq::empty(), i);
}

/// What tells rows apart in a deduplication stage: the values of its slots.
pub open spec fn stage_key(
    shape: ShapeView,
    sources: ValueSources,
    stage: Seq<ReturnSlotView>,
    row: RowView,
) -> Seq<char> {
    filter::key_text(slots::row_values(shape, sources, row, stage, false)->Ok_0)
}

proof fn lemma_stage_from(
    shape: ShapeView,
    sources: ValueSources,
    stage: Seq<ReturnSlotView>,
    rows: Seq<RowView>,
    from: int,
    seen: Set<Seq<char>>,
    done: Seq<RowView>,
    i: int,
)
    requires
        0 <= from <= rows.len(),
        0 <= i < rows.len(),
        filter::stage_from(shape, sources, stage, rows, from, seen, done) is Ok,
        i < from ==> seen.contains(stage_key(shape, sources, stage, rows[i])),
        forall|key: Seq<char>| #[trigger]
            seen.contains(key) ==> exists|k: int|
                0 <= k < done.len() && stage_key(shape, sources, stage, #[trigger] done[k]) == key,
        forall|k: int|
            0 <= k < done.len() ==> seen.contains(
                stage_key(shape, sources, stage, #[trigger] done[k]),
            ) && rows.contains(done[k]),
        forall|k: int, m: int|
            0 <= k < m < done.len() ==> stage_key(shape, sources, stage, #[trigger] done[k])
                != stage_key(shape, sources, stage, #[trigger] done[m]),
    ensures
        ({
            let kept = filter::stage_from(shape, sources, stage, rows, from, seen, done)->Ok_0;
            &&& exists|k: int|
                0 <= k < kept.len() && stage_key(shape, sources, stage, #[trigger] kept[k])
                    == stage_key(shape, sources, stage, rows[i])
            &&& forall|k: int| 0 <= k < kept.len() ==> rows.contains(#[trigger] kept[k])
            &&& forall|k: int, m: int|
                0 <= k < m < kept.len() ==> stage_key(shape, sources, stage, #[trigger] kept[k])
                    != stage_key(shape, sources, stage, #[trigger] kept[m])
        }),
    decreases rows.len() - from,
{
    if from < rows.len() {
        let key = stage_key(shape, sources, stage, rows[from]);
        if seen.contains(key) {
            lemma_stage_from(shape, sources, stage, rows, from + 1, seen, done, i);
        } else {
            let more = done.push(rows[from]);
            assert(more[done.len() as int] == rows[from]);
            assert forall|other: Seq<char>| #[trigger] seen.insert(key).contains(other) implies exists|
                k: int,
            |
                0 <= k < more.len() && stage_key(shape, sources, stage, #[trigger] more[k])
                    == other by {
                if other != key {
                    assert(seen.contains(other));
                    let k = choose|k: int|
                        0 <= k < done.len() && stage_key(shape, sources, stage, #[trigger] done[k])
                            == other;
                    assert(more[k] == done[k]);
                } else {
                    assert(stage_key(shape, sources, stage, more[done.len() as int]) == other);
                }
            }
            assert forall|k: int| 0 <= k < more.len() implies seen.insert(key).contains(
                stage_key(shape, sources, stage, #[trigger] more[k]),
            ) && rows.contains(more[k]) by {
                if k < done.len() {
                    assert(more[k] == done[k]);
                }
            }
            assert forall|k: int, m: int| 0 <= k < m < more.len() implies stage_key(
                shape,
                sources,
                stage,
                #[trigger] more[k],
            ) != stage_key(shape, sources, stage, #[trigger] more[m]) by {
                assert(more[k] == done[k]);
                assert(seen.contains(stage_key(shape, sources, stage, done[k])));
                if m < done.len() {
                    assert(more[m] == done[m]);
                }
            }
            lemma_stage_from(
                shape,
                sources,
                stage,
                rows,
                from + 1,
                seen.insert(key),
                more,
                i,
            );
        }
    }
}

/// A deduplication stage keeps rows that it was given, no two with the same values of its
/// slots, and for every row one with its values.
pub proof fn lemma_stage_keeps_every_value(
    shape: ShapeView,
    sources: ValueSources,
    stage: Seq<ReturnSlotView>,
    rows: Seq<RowView>,
    i: int,
)
    requires
        0 <= i < rows.len(),
        filter::stage_from(shape, sources, stage, rows, 0, Set::empty(), Seq::empty()) is Ok,
    ensures
        ({
            let kept = filter::stage_from(
                shape,
                sources,
                stage,
                rows,
                0,
                Set::empty(),
                Seq::empty(),
            )->Ok_0;
            &&& exists|k: int|
                0 <= k < kept.len() && stage_key(shape, sources, stage, #[trigger] kept[k])
                    == stage_key(shape, sources, stage, rows[i])
            &&& forall|k: int| 0 <= k < kept.len() ==> rows.contains(#[trigger] kept[k])
            &&& forall|k: int, m: int|
                0 <= k < m < kept.len() ==> stage_key(shape, sources, stage, #[trigger] kept[k])
                    != stage_key(shape, sources, stage, #[trigger] kept[m])
        }),
{
    lemma_stage_from(shape, sources, stage, rows, 0, Set::empty(), Seq::empty(), i);
}

// ---------------------------------------------------------------------------
// Rows
// ---------------------------------------------------------------------------

/// Whether values are those of slots for a row.
pub open spec fn are_slot_values(
    shape: ShapeView,
    sources: ValueSources,
    row: RowView,
    hydrate: bool,
    values: Seq<JsonView>,
) -> bool {
    &&& values.len() == shape.slots.len()
    &&& forall|s: int|
        0 <= s < values.len() ==> slots::slot_value(
            shape,
            sources,
            row,
            shape.slots[s],
            hydrate,
        ) == Ok::<_, GraphErrorView>(#[trigger] values[s])
}

proof fn lemma_values_from(
    shape: ShapeView,
    sources: ValueSources,
    row: RowView,
    hydrate: bool,
    from: int,
    done: Seq<JsonView>,
)
    requires
        done.len() == from,
        from <= shape.slots.len(),
        forall|s: int|
            0 <= s < done.len() ==> slots::slot_value(
                shape,
                sources,
                row,
                shape.slots[s],
                hydrate,
            ) == Ok::<_, GraphErrorView>(#[trigger] done[s]),
    ensures
        slots::values_from(shape, sources, row, shape.slots, hydrate, from, done) matches Ok(values)
            ==> are_slot_values(shape, sources, row, hydrate, values),
    decreases shape.slots.len() - from,
{
    if from < shape.slots.len() {
        match slots::slot_value(shape, sources, row, shape.slots[from], hydrate) {
            Ok(value) => {
                lemma_values_from(shape, sources, row, hydrate, from + 1, done.push(value));
            },
            Err(_) => {},
        }
    }
}

proof fn lemma_outputs_from(
    shape: ShapeView,
    sources: ValueSources,
    rows: Seq<RowView>,
    hydrate: bool,
    from: int,
    done: Seq<OutputView>,
)
    requires
        done.len() == from,
        from <= rows.len(),
        forall|k: int|
            0 <= k < done.len() ==> are_slot_values(
                shape,
                sources,
                rows[k],
                hydrate,
                (#[trigger] done[k]).values,
            ),
    ensures
        value::row_outputs_from(shape, sources, rows, hydrate, from, done) matches Ok(found) ==> {
            &&& found.len() == rows.len()
            &&& forall|k: int|
                0 <= k < found.len() ==> are_slot_values(
                    shape,
                    sources,
                    rows[k],
                    hydrate,
                    (#[trigger] found[k]).values,
                )
        },
    decreases rows.len() - from,
{
    if from < rows.len() {
        lemma_values_from(shape, sources, rows[from], hydrate, 0, Seq::empty());
        match slots::row_values(shape, sources, rows[from], shape.slots, hydrate) {
            Err(_) => {},
            Ok(values) => {
                match value::sort_values_from(
                    shape,
                    sources,
                    Some(rows[from]),
                    values,
                    0,
                    Seq::empty(),
                ) {
                    Err(_) => {},
                    Ok(sort) => {
                        let next = OutputView { values, sort };
                        assert(are_slot_values(shape, sources, rows[from], hydrate, values));
                        lemma_outputs_from(
                            shape,
                            sources,
                            rows,
                            hydrate,
                            from + 1,
                            done.push(next),
                        );
                    },
                }
            },
        }
    }
}

/// Without aggregates every row gives one output, in the order of the rows, which holds
/// the value of each slot for that row.
pub proof fn lemma_rows_give_outputs(
    shape: ShapeView,
    sources: ValueSources,
    rows: Seq<RowView>,
    hydrate: bool,
    sums: Seq<JsonView>,
)
    requires
        forall|s: int| 0 <= s < shape.slots.len() ==> !(#[trigger] shape.slots[s] is Aggregate),
    ensures
        value::outputs(shape, sources, rows, hydrate, sums) matches Ok(found) ==> {
            &&& found.len() == rows.len()
            &&& forall|k: int|
                0 <= k < found.len() ==> are_slot_values(
                    shape,
                    sources,
                    rows[k],
                    hydrate,
                    (#[trigger] found[k]).values,
                )
        },
{
    if aggregate::aggregates(shape.slots) {
        let s = choose|s: int| 0 <= s < shape.slots.len() && #[trigger] shape.slots[s] is Aggregate;
        assert(!(shape.slots[s] is Aggregate));
    }
    lemma_outputs_from(shape, sources, rows, hydrate, 0, Seq::empty());
}

// ---------------------------------------------------------------------------
// Values
// ---------------------------------------------------------------------------

/// The node that stands on a side of a row.
pub open spec fn node_at(row: RowView, side: BindingSide) -> Option<CoordinateView> {
    match side {
        BindingSide::Source => Some(row.source),
        BindingSide::Target => row.target,
        BindingSide::PathNode(at) => if at < row.path_nodes.len() {
            Some(row.path_nodes[at as int])
        } else {
            None
        },
    }
}

/// The label that a node is returned with.
pub open spec fn label_at(shape: ShapeView, side: BindingSide, node: CoordinateView) -> Seq<char> {
    match side {
        BindingSide::Source => shape.source_label,
        BindingSide::Target => shape.target_label,
        BindingSide::PathNode(_) => if node.table_oid == shape.source_table_oid {
            shape.source_label
        } else {
            shape.target_label
        },
    }
}

/// Whether a value refers to a node by its label and identifier.
pub open spec fn refers(value: JsonView, label: Seq<char>, node: CoordinateView) -> bool {
    &&& value is Object
    &&& value->Object_0.len() == 2
    &&& has(value, "id"@, JsonView::Text(node.node_id))
    &&& has(value, "table"@, JsonView::Text(label))
}

/// Whether a value lists one label.
pub open spec fn lists_label(value: JsonView, label: Seq<char>) -> bool {
    value matches JsonView::Array(labels) && labels.len() == 1 && labels[0] == JsonView::Text(label)
}

/// A returned node is null where the row has none; else it refers to the node of that
/// side, lists its label and, where it is hydrated, has the other members of its source
/// row and no more.
pub proof fn lemma_node_values(
    shape: ShapeView,
    sources: ValueSources,
    row: RowView,
    side: BindingSide,
    name: Seq<char>,
    hydrate: bool,
    member: Seq<char>,
    inner: JsonView,
)
    requires
        json_laws::rows_in_key_order(sources.hydrated),
    ensures
        ({
            let result = slots::slot_value(
                shape,
                sources,
                row,
                (ReturnSlotView::Node { side, name }),
                hydrate,
            );
            match node_at(row, side) {
                None => result == Ok::<_, GraphErrorView>(JsonView::Null),
                Some(node) => {
                    let key = (node.table_oid, node.node_id);
                    let label = label_at(shape, side, node);
                    &&& result is Ok <==> !hydrate || sources.hydrated.contains_key(key)
                    &&& result is Ok ==> {
                        &&& result->Ok_0 is Object
                        &&& has(result->Ok_0, member, inner) ==> {
                            ||| member == "_id"@ && refers(inner, label, node)
                            ||| member == "_labels"@ && lists_label(inner, label)
                            ||| hydrate && has(sources.hydrated[key], member, inner)
                        }
                        &&& member == "_id"@ && has(result->Ok_0, member, inner) ==> refers(
                            inner,
                            label,
                            node,
                        )
                        &&& member == "_labels"@ && has(result->Ok_0, member, inner)
                            ==> lists_label(inner, label)
                        &&& exists|id: JsonView| has(result->Ok_0, "_id"@, id)
                        &&& exists|labels: JsonView| has(result->Ok_0, "_labels"@, labels)
                        &&& hydrate && has(sources.hydrated[key], member, inner) && member
                            != "_id"@ && member != "_labels"@ ==> has(result->Ok_0, member, inner)
                    }
                },
            }
        }),
{
    match node_at(row, side) {
        None => {},
        Some(node) => {
            let key = (node.table_oid, node.node_id);
            let label = label_at(shape, side, node);
            let id = slots::reference_json(label, node.node_id);
            let labels = JsonView::Array(seq![JsonView::Text(label)]);
            let entries = if hydrate {
                slots::members(sources.hydrated[key])
            } else {
                Seq::empty()
            };
            if !hydrate || sources.hydrated.contains_key(key) {
                assert(keys_ascend(entries));
                reveal_strlit("_id");
                reveal_strlit("_labels");
                assert("_id"@.len() != "_labels"@.len());
                let with_id = json::with_entry(entries, "_id"@, id);
                lemma_set_member(entries, "_id"@, id, member, inner);
                lemma_set_member(with_id, "_labels"@, labels, member, inner);
                lemma_set_member(entries, "_id"@, id, "_id"@, id);
                lemma_set_member(with_id, "_labels"@, labels, "_id"@, id);
                lemma_set_member(with_id, "_labels"@, labels, "_labels"@, labels);
                lemma_refers(label, node);
                let value = slots::labeled_node(entries, label, node.node_id);
                assert(has(value, "_id"@, id));
                assert(has(value, "_labels"@, labels));
            }
        },
    }
}

proof fn lemma_refers(label: Seq<char>, node: CoordinateView)
    ensures
        refers(slots::reference_json(label, node.node_id), label, node),
{
    let entries = slots::reference_json(label, node.node_id)->Object_0;
    assert(entries[0] == ("id"@, JsonView::Text(node.node_id)));
    assert(entries[1] == ("table"@, JsonView::Text(label)));
}

/// The label that a node of a relationship is returned with.
pub open spec fn label_in(shape: ShapeView, node: CoordinateView) -> Seq<char> {
    if node.table_oid == shape.source_table_oid {
        shape.source_label
    } else {
        shape.target_label
    }
}

/// Whether a value is a relationship of a type from one node to another.
pub open spec fn leads(
    value: JsonView,
    shape: ShapeView,
    rel_type: Seq<char>,
    start: CoordinateView,
    end: CoordinateView,
) -> bool {
    &&& value is Object
    &&& value->Object_0.len() == 3
    &&& has(value, "_type"@, JsonView::Text(rel_type))
    &&& exists|from: JsonView| #[trigger]
        has(value, "_start"@, from) && refers(from, label_in(shape, start), start)
    &&& exists|to: JsonView| #[trigger]
        has(value, "_end"@, to) && refers(to, label_in(shape, end), end)
}

proof fn lemma_leads(
    shape: ShapeView,
    rel_type: Seq<char>,
    start: CoordinateView,
    end: CoordinateView,
)
    ensures
        leads(slots::relationship_json(shape, rel_type, start, end), shape, rel_type, start, end),
{
    let value = slots::relationship_json(shape, rel_type, start, end);
    let entries = value->Object_0;
    let from = slots::reference_json(label_in(shape, start), start.node_id);
    let to = slots::reference_json(label_in(shape, end), end.node_id);
    lemma_refers(label_in(shape, start), start);
    lemma_refers(label_in(shape, end), end);
    assert(entries[0] == ("_end"@, to));
    assert(entries[1] == ("_start"@, from));
    assert(entries[2] == ("_type"@, JsonView::Text(rel_type)));
    assert(has(value, "_start"@, from));
    assert(has(value, "_end"@, to));
}

/// A returned relationship leads from the start of the row's relationship to its end; it
/// is null where the row has none.
pub proof fn lemma_relationship_values(
    shape: ShapeView,
    sources: ValueSources,
    row: RowView,
    name: Seq<char>,
    hydrate: bool,
)
    ensures
        ({
            let result = slots::slot_value(
                shape,
                sources,
                row,
                (ReturnSlotView::Relationship { name }),
                hydrate,
            );
            &&& result is Ok
            &&& row.rel_start is None || row.rel_end is None ==> result->Ok_0 is Null
            &&& row.rel_start matches Some(start) ==> row.rel_end matches Some(end) ==> leads(
                result->Ok_0,
                shape,
                shape.rel_type,
                start,
                end,
            )
        }),
{
    if let (Some(start), Some(end)) = (row.rel_start, row.rel_end) {
        lemma_leads(shape, shape.rel_type, start, end);
    }
}

/// Whether values are the nodes of a path, in order.
pub open spec fn are_path_nodes(
    shape: ShapeView,
    sources: ValueSources,
    row: RowView,
    hydrate: bool,
    nodes: Seq<JsonView>,
) -> bool {
    &&& nodes.len() == row.path_nodes.len()
    &&& forall|k: int|
        0 <= k < nodes.len() ==> slots::slot_value(
            shape,
            sources,
            row,
            (ReturnSlotView::Node { side: BindingSide::PathNode(k as usize), name: Seq::empty() }),
            hydrate,
        ) == Ok::<_, GraphErrorView>(#[trigger] nodes[k])
}

/// Whether values are the relationships of a path, in order.
pub open spec fn are_path_relationships(
    shape: ShapeView,
    row: RowView,
    relationships: Seq<JsonView>,
) -> bool {
    &&& relationships.len() == row.path_relationships.len()
    &&& forall|k: int|
        0 <= k < relationships.len() ==> leads(
            #[trigger] relationships[k],
            shape,
            row.path_relationships[k].rel_type,
            row.path_relationships[k].start,
            row.path_relationships[k].end,
        )
}

proof fn lemma_path_nodes(
    shape: ShapeView,
    sources: ValueSources,
    row: RowView,
    hydrate: bool,
    from: int,
    done: Seq<JsonView>,
)
    requires
        row.path_nodes.len() <= usize::MAX,
        done.len() == from,
        from <= row.path_nodes.len(),
        forall|k: int|
            0 <= k < done.len() ==> slots::slot_value(
                shape,
                sources,
                row,
                (ReturnSlotView::Node {
                    side: BindingSide::PathNode(k as usize),
                    name: Seq::empty(),
                }),
                hydrate,
            ) == Ok::<_, GraphErrorView>(#[trigger] done[k]),
    ensures
        slots::nodes_json_from(shape, sources, row.path_nodes, hydrate, from, done) matches Ok(
            nodes,
        ) ==> are_path_nodes(shape, sources, row, hydrate, nodes),
    decreases row.path_nodes.len() - from,
{
    if from < row.path_nodes.len() {
        match slots::node_json(
            sources,
            row.path_nodes[from],
            slots::table_label(shape, row.path_nodes[from].table_oid),
            hydrate,
        ) {
            Ok(node) => {
                let slot = ReturnSlotView::Node {
                    side: BindingSide::PathNode(from as usize),
                    name: Seq::empty(),
                };
                assert(slots::slot_value(shape, sources, row, slot, hydrate) == Ok::<
                    _,
                    GraphErrorView,
                >(node));
                lemma_path_nodes(shape, sources, row, hydrate, from + 1, done.push(node));
            },
            Err(_) => {},
        }
    }
}

/// A returned path has the nodes and relationships of the row's path, in order; its
/// functions return the nodes, the relationships and how many relationships there are.
/// All of them are null where nothing was matched.
pub proof fn lemma_path_values(
    shape: ShapeView,
    sources: ValueSources,
    row: RowView,
    name: Seq<char>,
    hydrate: bool,
)
    requires
        row.path_nodes.len() <= usize::MAX,
    ensures
        ({
            let path = slots::slot_value(
                shape,
                sources,
                row,
                (ReturnSlotView::Path { name }),
                hydrate,
            );
            let nodes = slots::slot_value(
                shape,
                sources,
                row,
                (ReturnSlotView::PathFunction { func: PathFunc::Nodes, name }),
                hydrate,
            );
            let relationships = slots::slot_value(
                shape,
                sources,
                row,
                (ReturnSlotView::PathFunction { func: PathFunc::Relationships, name }),
                hydrate,
            );
            let length = slots::slot_value(
                shape,
                sources,
                row,
                (ReturnSlotView::PathFunction { func: PathFunc::Length, name }),
                hydrate,
            );
            let null = Ok::<_, GraphErrorView>(JsonView::Null);
            &&& row.target is None ==> path == null && nodes == null && relationships == null
                && length == null
            &&& row.target is Some ==> {
                &&& length == Ok::<_, GraphErrorView>(
                    JsonView::Number(NumberView::Int(row.path_relationships.len() as int)),
                )
                &&& relationships is Ok && relationships->Ok_0 is Array && are_path_relationships(
                    shape,
                    row,
                    relationships->Ok_0->Array_0,
                )
                &&& nodes matches Ok(list) ==> list is Array && are_path_nodes(
                    shape,
                    sources,
                    row,
                    hydrate,
                    list->Array_0,
                )
                &&& path is Ok <==> nodes is Ok
                &&& path matches Ok(whole) ==> {
                    &&& whole is Object && whole->Object_0.len() == 1
                    &&& whole->Object_0[0].0 == "_path"@
                    &&& whole->Object_0[0].1 is Object
                    &&& whole->Object_0[0].1->Object_0.len() == 2
                    &&& has(whole->Object_0[0].1, "nodes"@, nodes->Ok_0)
                    &&& has(whole->Object_0[0].1, "relationships"@, relationships->Ok_0)
                }
            }
        }),
{
    lemma_path_nodes(shape, sources, row, hydrate, 0, Seq::empty());
    let relationships = slots::relationships_json(shape, row.path_relationships);
    assert forall|k: int| 0 <= k < relationships.len() implies leads(
        #[trigger] relationships[k],
        shape,
        row.path_relationships[k].rel_type,
        row.path_relationships[k].start,
        row.path_relationships[k].end,
    ) by {
        lemma_leads(
            shape,
            row.path_relationships[k].rel_type,
            row.path_relationships[k].start,
            row.path_relationships[k].end,
        );
    }
    if let Ok(nodes) = slots::nodes_json_from(
        shape,
        sources,
        row.path_nodes,
        hydrate,
        0,
        Seq::empty(),
    ) {
        let inner = slots::path_json(nodes, relationships)->Object_0[0].1->Object_0;
        assert(inner[0] == ("nodes"@, JsonView::Array(nodes)));
        assert(inner[1] == ("relationships"@, JsonView::Array(relationships)));
    }
}

/// Whether a value is the property of the node on a side of a row: that of its source
/// row, null where that has none and where there is no node.
pub open spec fn is_property(
    sources: ValueSources,
    row: RowView,
    side: BindingSide,
    property: Seq<char>,
    value: JsonView,
) -> bool {
    match node_at(row, side) {
        None => value is Null,
        Some(node) => {
            let key = (node.table_oid, node.node_id);
            &&& sources.hydrated.contains_key(key)
            &&& match hydrate::property_of(sources.hydrated[key], property) {
                Some(found) => value == found,
                None => value is Null,
            }
        },
    }
}

/// A returned property is that of the node on its side, and is refused exactly where that
/// node has no source row.
pub proof fn lemma_property_values(
    shape: ShapeView,
    sources: ValueSources,
    row: RowView,
    side: BindingSide,
    property: Seq<char>,
    name: Seq<char>,
    hydrate: bool,
)
    ensures
        ({
            let result = slots::slot_value(
                shape,
                sources,
                row,
                (ReturnSlotView::Property { side, property, name }),
                hydrate,
            );
            &&& result matches Ok(value) ==> is_property(sources, row, side, property, value)
            &&& result is Err <==> (node_at(row, side) matches Some(node)
                && !sources.hydrated.contains_key((node.table_oid, node.node_id)))
        }),
{
}

// ---------------------------------------------------------------------------
// Sort keys
// ---------------------------------------------------------------------------

/// Whether a value is what a row is sorted by: the property of a node, or the value of
/// the slot that is returned under a name, with the whole node where it is one.
pub open spec fn is_sort_value(
    shape: ShapeView,
    sources: ValueSources,
    row: RowView,
    key: SortBindingKeyView,
    value: JsonView,
) -> bool {
    match key {
        SortBindingKeyView::Property { side, property } => is_property(
            sources,
            row,
            side,
            property,
            value,
        ),
        SortBindingKeyView::ReturnName(name) => forall|at: int| #[trigger]
            last_of_name(shape.slots, name, shape.slots.len() as int, at)
                && !(shape.slots[at] is Aggregate) ==> slots::slot_value(
                shape,
                sources,
                row,
                shape.slots[at],
                true,
            ) == Ok::<_, GraphErrorView>(value),
    }
}

proof fn lemma_last_named(slots: Seq<ReturnSlotView>, name: Seq<char>, count: nat, at: int)
    requires
        last_of_name(slots, name, count as int, at),
        count <= slots.len(),
    ensures
        value::last_named(slots, name, count) == Some(at),
    decreases count,
{
    if at < count - 1 {
        assert(name_given(slots[count - 1]) != name);
        lemma_last_named(slots, name, (count - 1) as nat, at);
    }
}

proof fn lemma_sort_value(
    shape: ShapeView,
    sources: ValueSources,
    row: RowView,
    values: Seq<JsonView>,
    key: SortBindingKeyView,
)
    ensures
        value::sort_value(shape, sources, Some(row), values, key) matches Ok(value)
            ==> is_sort_value(shape, sources, row, key, value),
{
    if let Ok(value) = value::sort_value(shape, sources, Some(row), values, key) {
        if let SortBindingKeyView::ReturnName(name) = key {
            assert forall|at: int| #[trigger]
                last_of_name(shape.slots, name, shape.slots.len() as int, at)
                    && !(shape.slots[at] is Aggregate) implies slots::slot_value(
                shape,
                sources,
                row,
                shape.slots[at],
                true,
            ) == Ok::<_, GraphErrorView>(value) by {
                lemma_last_named(shape.slots, name, shape.slots.len(), at);
            }
        }
    }
}

/// Whether an output is sorted by what its row is sorted by.
pub open spec fn are_sort_values(
    shape: ShapeView,
    sources: ValueSources,
    row: RowView,
    sort: Seq<JsonView>,
) -> bool {
    &&& sort.len() == shape.order_by.len()
    &&& forall|p: int|
        0 <= p < sort.len() ==> is_sort_value(
            shape,
            sources,
            row,
            shape.order_by[p].key,
            #[trigger] sort[p],
        )
}

proof fn lemma_sort_values_from(
    shape: ShapeView,
    sources: ValueSources,
    row: RowView,
    values: Seq<JsonView>,
    from: int,
    done: Seq<JsonView>,
)
    requires
        done.len() == from,
        from <= shape.order_by.len(),
        forall|p: int|
            0 <= p < done.len() ==> is_sort_value(
                shape,
                sources,
                row,
                shape.order_by[p].key,
                #[trigger] done[p],
            ),
    ensures
        value::sort_values_from(shape, sources, Some(row), values, from, done) matches Ok(sort)
            ==> are_sort_values(shape, sources, row, sort),
    decreases shape.order_by.len() - from,
{
    if from < shape.order_by.len() {
        lemma_sort_value(shape, sources, row, values, shape.order_by[from].key);
        match value::sort_value(shape, sources, Some(row), values, shape.order_by[from].key) {
            Ok(value) => {
                lemma_sort_values_from(shape, sources, row, values, from + 1, done.push(value));
            },
            Err(_) => {},
        }
    }
}

proof fn lemma_sorts_from(
    shape: ShapeView,
    sources: ValueSources,
    rows: Seq<RowView>,
    hydrate: bool,
    from: int,
    done: Seq<OutputView>,
)
    requires
        done.len() == from,
        from <= rows.len(),
        forall|k: int|
            0 <= k < done.len() ==> are_sort_values(
                shape,
                sources,
                rows[k],
                (#[trigger] done[k]).sort,
            ),
    ensures
        value::row_outputs_from(shape, sources, rows, hydrate, from, done) matches Ok(found) ==> {
            &&& found.len() == rows.len()
            &&& forall|k: int|
                0 <= k < found.len() ==> are_sort_values(
                    shape,
                    sources,
                    rows[k],
                    (#[trigger] found[k]).sort,
                )
        },
    decreases rows.len() - from,
{
    if from < rows.len() {
        match slots::row_values(shape, sources, rows[from], shape.slots, hydrate) {
            Err(_) => {},
            Ok(values) => {
                lemma_sort_values_from(shape, sources, rows[from], values, 0, Seq::empty());
                match value::sort_values_from(
                    shape,
                    sources,
                    Some(rows[from]),
                    values,
                    0,
                    Seq::empty(),
                ) {
                    Err(_) => {},
                    Ok(sort) => {
                        let next = OutputView { values, sort };
                        lemma_sorts_from(
                            shape,
                            sources,
                            rows,
                            hydrate,
                            from + 1,
                            done.push(next),
                        );
                    },
                }
            },
        }
    }
}

/// Without aggregates every output is sorted by the properties and returned values of its
/// row that the sort keys name.
pub proof fn lemma_rows_give_sort_keys(
    shape: ShapeView,
    sources: ValueSources,
    rows: Seq<RowView>,
    hydrate: bool,
    sums: Seq<JsonView>,
)
    requires
        forall|s: int| 0 <= s < shape.slots.len() ==> !(#[trigger] shape.slots[s] is Aggregate),
    ensures
        value::outputs(shape, sources, rows, hydrate, sums) matches Ok(found) ==> {
            &&& found.len() == rows.len()
            &&& forall|k: int|
                0 <= k < found.len() ==> are_sort_values(
                    shape,
                    sources,
                    rows[k],
                    (#[trigger] found[k]).sort,
                )
        },
{
    if aggregate::aggregates(shape.slots) {
        let s = choose|s: int| 0 <= s < shape.slots.len() && #[trigger] shape.slots[s] is Aggregate;
        assert(!(shape.slots[s] is Aggregate));
    }
    lemma_sorts_from(shape, sources, rows, hydrate, 0, Seq::empty());
}

// ---------------------------------------------------------------------------
// Source rows
// ---------------------------------------------------------------------------

/// Whether two sources differ in source rows alone.
pub open spec fn same_parameters(a: ValueSources, b: ValueSources) -> bool {
    a.params == b.params
}

proof fn lemma_bare_nodes(
    shape: ShapeView,
    a: ValueSources,
    b: ValueSources,
    nodes: Seq<CoordinateView>,
    from: int,
    done: Seq<JsonView>,
)
    ensures
        slots::nodes_json_from(shape, a, nodes, false, from, done) == slots::nodes_json_from(
            shape,
            b,
            nodes,
            false,
            from,
            done,
        ),
    decreases nodes.len() - from,
{
    if from < nodes.len() {
        let label = slots::table_label(shape, nodes[from].table_oid);
        if let Ok(node) = slots::node_json(a, nodes[from], label, false) {
            lemma_bare_nodes(shape, a, b, nodes, from + 1, done.push(node));
        }
    }
}

proof fn lemma_bare_values(
    shape: ShapeView,
    a: ValueSources,
    b: ValueSources,
    row: RowView,
    given: Seq<ReturnSlotView>,
    from: int,
    done: Seq<JsonView>,
)
    requires
        0 <= from,
        forall|i: int| 0 <= i < given.len() ==> !((#[trigger] given[i]) is Property),
    ensures
        slots::values_from(shape, a, row, given, false, from, done) == slots::values_from(
            shape,
            b,
            row,
            given,
            false,
            from,
            done,
        ),
    decreases given.len() - from,
{
    if from < given.len() {
        lemma_bare_nodes(shape, a, b, row.path_nodes, 0, Seq::empty());
        assert(!(given[from] is Property));
        if let Ok(value) = slots::slot_value(shape, a, row, given[from], false) {
            lemma_bare_values(shape, a, b, row, given, from + 1, done.push(value));
        }
    }
}

proof fn lemma_bare_stage(
    shape: ShapeView,
    a: ValueSources,
    b: ValueSources,
    stage: Seq<ReturnSlotView>,
    rows: Seq<RowView>,
    from: int,
    seen: Set<Seq<char>>,
    done: Seq<RowView>,
)
    requires
        0 <= from,
        forall|i: int| 0 <= i < stage.len() ==> !((#[trigger] stage[i]) is Property),
    ensures
        filter::stage_from(shape, a, stage, rows, from, seen, done) == filter::stage_from(
            shape,
            b,
            stage,
            rows,
            from,
            seen,
            done,
        ),
    decreases rows.len() - from,
{
    if from < rows.len() {
        lemma_bare_values(shape, a, b, rows[from], stage, 0, Seq::empty());
        if let Ok(values) = slots::row_values(shape, a, rows[from], stage, false) {
            let key = filter::key_text(values);
            if seen.contains(key) {
                lemma_bare_stage(shape, a, b, stage, rows, from + 1, seen, done);
            } else {
                lemma_bare_stage(
                    shape,
                    a,
                    b,
                    stage,
                    rows,
                    from + 1,
                    seen.insert(key),
                    done.push(rows[from]),
                );
            }
        }
    }
}

proof fn lemma_bare_stages(
    shape: ShapeView,
    a: ValueSources,
    b: ValueSources,
    rows: Seq<RowView>,
    from: int,
)
    requires
        0 <= from,
        forall|s: int, i: int|
            0 <= s < shape.distinct_stages.len() && 0 <= i < shape.distinct_stages[s].len()
                ==> !((#[trigger] shape.distinct_stages[s][i]) is Property),
    ensures
        filter::stages_from(shape, a, rows, from) == filter::stages_from(shape, b, rows, from),
    decreases shape.distinct_stages.len() - from,
{
    if from < shape.distinct_stages.len() {
        let stage = shape.distinct_stages[from];
        assert forall|i: int| 0 <= i < stage.len() implies !((#[trigger] stage[i]) is Property) by {
            assert(!(shape.distinct_stages[from][i] is Property));
        }
        lemma_bare_stage(shape, a, b, stage, rows, 0, Set::empty(), Seq::empty());
        if let Ok(fewer) = filter::stage_from(
            shape,
            a,
            stage,
            rows,
            0,
            Set::empty(),
            Seq::empty(),
        ) {
            lemma_bare_stages(shape, a, b, fewer, from + 1);
        }
    }
}

proof fn lemma_bare_outputs(
    shape: ShapeView,
    a: ValueSources,
    b: ValueSources,
    rows: Seq<RowView>,
    from: int,
    done: Seq<OutputView>,
)
    requires
        0 <= from,
        shape.order_by.len() == 0,
        forall|i: int| 0 <= i < shape.slots.len() ==> !((#[trigger] shape.slots[i]) is Property),
    ensures
        value::row_outputs_from(shape, a, rows, false, from, done) == value::row_outputs_from(
            shape,
            b,
            rows,
            false,
            from,
            done,
        ),
    decreases rows.len() - from,
{
    if from < rows.len() {
        lemma_bare_values(shape, a, b, rows[from], shape.slots, 0, Seq::empty());
        if let Ok(values) = slots::row_values(shape, a, rows[from], shape.slots, false) {
            let next = OutputView { values, sort: Seq::empty() };
            lemma_bare_outputs(shape, a, b, rows, from + 1, done.push(next));
        }
    }
}

proof fn lemma_unfiltered(
    shape: ShapeView,
    a: ValueSources,
    b: ValueSources,
    rows: Seq<RowView>,
    from: int,
    kept: bool,
    done: Seq<RowView>,
)
    requires
        shape.predicate is None,
    ensures
        filter::filtered_from(shape, a, rows, from, kept, done) == filter::filtered_from(
            shape,
            b,
            rows,
            from,
            kept,
            done,
        ),
    decreases rows.len() - from,
{
    if from < rows.len() {
        lemma_unfiltered(shape, a, b, rows, from + 1, true, done.push(rows[from]));
    }
}

/// A relationship plan without aggregates that is said to read no source rows returns the
/// same whatever the source rows are.
pub proof fn lemma_plans_that_read_no_rows(
    plan: PhysicalPlanView,
    hydrate: bool,
    a: ValueSources,
    b: ValueSources,
    rows: Seq<RowView>,
    sums: Seq<JsonView>,
)
    requires
        !value::reads_rows(plan, hydrate),
        same_parameters(a, b),
        forall|i: int| 0 <= i < plan.returns.len() ==> !((#[trigger] plan.returns[i]) is Aggregate),
    ensures
        value::projected(slots::plan_shape(plan), a, rows, hydrate, sums) == value::projected(
            slots::plan_shape(plan),
            b,
            rows,
            hydrate,
            sums,
        ),
{
    let shape = slots::plan_shape(plan);
    assert forall|i: int| 0 <= i < shape.slots.len() implies !((
    #[trigger] shape.slots[i]) is Property) by {
        assert(!value::reads_property(shape.slots[i]));
    }
    assert forall|s: int, i: int|
        0 <= s < shape.distinct_stages.len() && 0 <= i
            < shape.distinct_stages[s].len() implies !((
    #[trigger] shape.distinct_stages[s][i]) is Property) by {
        assert(!value::any_reads(plan.distinct_stages[s]));
        assert(!value::reads_property(plan.distinct_stages[s][i]));
    }
    if aggregate::aggregates(shape.slots) {
        let s = choose|s: int| 0 <= s < shape.slots.len() && #[trigger] shape.slots[s] is Aggregate;
        assert(!(plan.returns[s] is Aggregate));
    }
    lemma_unfiltered(shape, a, b, rows, 0, false, Seq::empty());
    if let Ok(passed) = filter::filtered(shape, a, rows) {
        lemma_bare_stages(shape, a, b, passed, 0);
        if let Ok(kept) = filter::stages_from(shape, a, passed, 0) {
            lemma_bare_outputs(shape, a, b, kept, 0, Seq::empty());
        }
    }
}

} // verus!
