//! Projection of result rows to JSON values.
use vstd::prelude::*;

use crate::query::aggregate::{self, returns_aggregates, Group, GroupView, SumInput, SumInputView};
use crate::query::evaluate::{self, side_node, ValueReader, ValueSources};
use crate::query::filter::{self, distinct_cap_error, text_key};
use crate::query::hydrate::{HydratedRows, QueryParams};
use crate::query::json::{self, duplicate_json, set_entry, Json, JsonView};
use crate::query::json_laws;
use crate::query::json_order::{self, total_json_order, JsonOrder};
use crate::query::logical_plan::{
    AggregateArg, SortBinding, SortBindingKey, SortBindingKeyView, SortBindingView,
};
use crate::query::names::NameSet;
use crate::query::physical_plan::{
    PhysicalNodeScan, PhysicalPlan, PhysicalPlanView, ReturnSlot, ReturnSlotView,
    MAX_GQL_DISTINCT_KEYS,
};
use crate::query::rows::{CoordinateView, GqlNodeRow, GqlRow, RowView};
use crate::query::slots::{self, shape_of_plan, shape_of_scan, Projector, ShapeView};
use crate::safety::{self, GraphErrorView, GraphResult};
use crate::text::same_text;
use crate::views;

verus! {

// ---------------------------------------------------------------------------
// Output rows
// ---------------------------------------------------------------------------

/// The name of a slot.
pub open spec fn slot_name(slot: ReturnSlotView) -> Seq<char> {
    match slot {
        ReturnSlotView::Node { name, .. } => name,
        ReturnSlotView::Relationship { name } => name,
        ReturnSlotView::Path { name } => name,
        ReturnSlotView::PathFunction { name, .. } => name,
        ReturnSlotView::Property { name, .. } => name,
        ReturnSlotView::Aggregate { name, .. } => name,
    }
}

fn name_of_slot(slot: &ReturnSlot) -> (name: &String)
    ensures
        name@ == slot_name(slot@),
{
    match slot {
        ReturnSlot::Node { name, .. } => name,
        ReturnSlot::Relationship { name } => name,
        ReturnSlot::Path { name } => name,
        ReturnSlot::PathFunction { name, .. } => name,
        ReturnSlot::Property { name, .. } => name,
        ReturnSlot::Aggregate { name, .. } => name,
    }
}

/// The last of the first `count` slots with a name.
pub open spec fn last_named(slots: Seq<ReturnSlotView>, name: Seq<char>, count: nat) -> Option<int>
    decreases count,
{
    if count == 0 {
        None
    } else if slot_name(slots[count - 1]) == name {
        Some(count - 1)
    } else {
        last_named(slots, name, (count - 1) as nat)
    }
}

/// The value that an output row is sorted by.
pub open spec fn sort_value(
    shape: ShapeView,
    sources: ValueSources,
    first: Option<RowView>,
    values: Seq<JsonView>,
    key: SortBindingKeyView,
) -> Result<JsonView, GraphErrorView> {
    match key {
        SortBindingKeyView::ReturnName(name) => match last_named(
            shape.slots,
            name,
            shape.slots.len(),
        ) {
            None => Ok(JsonView::Null),
            Some(at) => if shape.slots[at] is Aggregate {
                Ok(values[at])
            } else {
                match first {
                    Some(row) => slots::slot_value(shape, sources, row, shape.slots[at], true),
                    None => Ok(JsonView::Null),
                }
            },
        },
        SortBindingKeyView::Property { side, property } => match first {
            None => Ok(JsonView::Null),
            Some(row) => match evaluate::node_property(
                sources,
                evaluate::side_of(row, side),
                property,
            ) {
                Ok(value) => Ok(evaluate::or_null(value)),
                Err(error) => Err(error),
            },
        },
    }
}

/// The values that an output row is sorted by from `from` on, after those done.
pub open spec fn sort_values_from(
    shape: ShapeView,
    sources: ValueSources,
    first: Option<RowView>,
    values: Seq<JsonView>,
    from: int,
    done: Seq<JsonView>,
) -> Result<Seq<JsonView>, GraphErrorView>
    decreases shape.order_by.len() - from,
{
    if from >= shape.order_by.len() {
        Ok(done)
    } else {
        match sort_value(shape, sources, first, values, shape.order_by[from].key) {
            Ok(value) => sort_values_from(
                shape,
                sources,
                first,
                values,
                from + 1,
                done.push(value),
            ),
            Err(error) => Err(error),
        }
    }
}

/// An output row.
pub struct Output {
    /// Values of the slots.
    pub values: Vec<Json>,
    /// Values that it is sorted by.
    pub sort: Vec<Json>,
}

/// What an output row holds.
#[verifier::ext_equal]
pub struct OutputView {
    pub values: Seq<JsonView>,
    pub sort: Seq<JsonView>,
}

impl View for Output {
    type V = OutputView;

    open spec fn view(&self) -> OutputView {
        OutputView { values: views::views(self.values@), sort: views::views(self.sort@) }
    }
}

/// The outputs of the rows from `from` on, after those done.
pub open spec fn row_outputs_from(
    shape: ShapeView,
    sources: ValueSources,
    rows: Seq<RowView>,
    hydrate: bool,
    from: int,
    done: Seq<OutputView>,
) -> Result<Seq<OutputView>, GraphErrorView>
    decreases rows.len() - from,
{
    if from >= rows.len() {
        Ok(done)
    } else {
        match slots::row_values(shape, sources, rows[from], shape.slots, hydrate) {
            Err(error) => Err(error),
            Ok(values) => match sort_values_from(
                shape,
                sources,
                Some(rows[from]),
                values,
                0,
                Seq::empty(),
            ) {
                Err(error) => Err(error),
                Ok(sort) => row_outputs_from(
                    shape,
                    sources,
                    rows,
                    hydrate,
                    from + 1,
                    done.push(OutputView { values, sort }),
                ),
            },
        }
    }
}

/// The first of rows, where there is one.
pub open spec fn first_row(rows: Seq<RowView>) -> Option<RowView> {
    if rows.len() > 0 {
        Some(rows[0])
    } else {
        None
    }
}

/// The outputs of the groups from `from` on, after those done.
pub open spec fn group_outputs_from(
    shape: ShapeView,
    sources: ValueSources,
    groups: Seq<GroupView>,
    hydrate: bool,
    sums: Seq<JsonView>,
    from: int,
    next: nat,
    done: Seq<OutputView>,
) -> Result<Seq<OutputView>, GraphErrorView>
    decreases groups.len() - from,
{
    if from >= groups.len() {
        Ok(done)
    } else {
        match aggregate::group_values_from(
            shape,
            sources,
            groups[from].rows,
            hydrate,
            sums,
            0,
            next,
            Seq::empty(),
        ) {
            Err(error) => Err(error),
            Ok((values, later)) => match sort_values_from(
                shape,
                sources,
                first_row(groups[from].rows),
                values,
                0,
                Seq::empty(),
            ) {
                Err(error) => Err(error),
                Ok(sort) => group_outputs_from(
                    shape,
                    sources,
                    groups,
                    hydrate,
                    sums,
                    from + 1,
                    later,
                    done.push(OutputView { values, sort }),
                ),
            },
        }
    }
}

/// The outputs of rows: one for each row, or for each group where the read returns
/// aggregates.
pub open spec fn outputs(
    shape: ShapeView,
    sources: ValueSources,
    rows: Seq<RowView>,
    hydrate: bool,
    sums: Seq<JsonView>,
) -> Result<Seq<OutputView>, GraphErrorView> {
    if aggregate::aggregates(shape.slots) {
        match aggregate::grouped(shape, sources, rows) {
            Err(error) => Err(error),
            Ok(groups) => group_outputs_from(
                shape,
                sources,
                groups,
                hydrate,
                sums,
                0,
                0,
                Seq::empty(),
            ),
        }
    } else {
        row_outputs_from(shape, sources, rows, hydrate, 0, Seq::empty())
    }
}

/// The outputs from `from` on whose values no earlier output has, after those done.
pub open spec fn distinct_from(
    found: Seq<OutputView>,
    from: int,
    seen: Set<Seq<char>>,
    done: Seq<OutputView>,
) -> Result<Seq<OutputView>, GraphErrorView>
    decreases found.len() - from,
{
    if from >= found.len() {
        Ok(done)
    } else {
        let key = filter::key_text(found[from].values);
        if seen.contains(key) {
            distinct_from(found, from + 1, seen, done)
        } else if done.len() >= MAX_GQL_DISTINCT_KEYS {
            Err(filter::distinct_cap_exceeded())
        } else {
            distinct_from(found, from + 1, seen.insert(key), done.push(found[from]))
        }
    }
}

// ---------------------------------------------------------------------------
// Order and window
// ---------------------------------------------------------------------------

/// How two outputs stand to each other by the sort values from `from` on.
pub open spec fn output_order(
    order_by: Seq<SortBindingView>,
    a: OutputView,
    b: OutputView,
    from: int,
) -> JsonOrder
    decreases order_by.len() - from,
{
    if from >= order_by.len() || from >= a.sort.len() || from >= b.sort.len() {
        JsonOrder::Equal
    } else {
        let order = json_order::total_order(a.sort[from], b.sort[from]);
        if order is Equal {
            output_order(order_by, a, b, from + 1)
        } else if order_by[from].desc {
            order.flipped()
        } else {
            order
        }
    }
}

/// Where an output goes among the first `count` of sorted outputs: after all that it
/// does not come before.
pub open spec fn output_place(
    order_by: Seq<SortBindingView>,
    sorted: Seq<OutputView>,
    output: OutputView,
    count: nat,
) -> nat
    decreases count,
{
    if count == 0 || !(output_order(order_by, output, sorted[count - 1], 0) is Less) {
        count
    } else {
        output_place(order_by, sorted, output, (count - 1) as nat)
    }
}

/// The first `count` outputs in order; outputs that stand the same keep their
/// order.
pub open spec fn sorted_outputs(
    order_by: Seq<SortBindingView>,
    found: Seq<OutputView>,
    count: nat,
) -> Seq<OutputView>
    decreases count,
{
    if count == 0 {
        Seq::empty()
    } else {
        let sorted = sorted_outputs(order_by, found, (count - 1) as nat);
        sorted.insert(
            output_place(order_by, sorted, found[count - 1], sorted.len()) as int,
            found[count - 1],
        )
    }
}

/// The least of two numbers.
pub open spec fn least(a: int, b: int) -> int {
    if a < b {
        a
    } else {
        b
    }
}

/// The part of a sequence after those skipped, up to the limit.
pub open spec fn window<T>(items: Seq<T>, skip: Option<u64>, limit: Option<u64>) -> Seq<T> {
    let len = items.len() as int;
    let start = match skip {
        Some(skip) => least(skip as int, len),
        None => 0,
    };
    let end = match limit {
        Some(limit) => least(start + limit, len),
        None => len,
    };
    items.subrange(start, end)
}

/// The entries after the values of the slots from `from` on.
pub open spec fn entries_from(
    slots: Seq<ReturnSlotView>,
    values: Seq<JsonView>,
    from: int,
    entries: Seq<(Seq<char>, JsonView)>,
) -> Seq<(Seq<char>, JsonView)>
    decreases slots.len() - from,
{
    if from >= slots.len() || from >= values.len() {
        entries
    } else {
        entries_from(
            slots,
            values,
            from + 1,
            json::with_entry(entries, slot_name(slots[from]), values[from]),
        )
    }
}

/// The value of an output row.
pub open spec fn output_json(slots: Seq<ReturnSlotView>, output: OutputView) -> JsonView {
    JsonView::Object(entries_from(slots, output.values, 0, Seq::empty()))
}

/// Outputs after deduplication, order and window, as values.
pub open spec fn finished(shape: ShapeView, found: Seq<OutputView>) -> Result<
    Seq<JsonView>,
    GraphErrorView,
> {
    let kept = if shape.distinct {
        distinct_from(found, 0, Set::empty(), Seq::empty())
    } else {
        Ok(found)
    };
    match kept {
        Err(error) => Err(error),
        Ok(kept) => {
            let sorted = if shape.order_by.len() > 0 {
                sorted_outputs(shape.order_by, kept, kept.len())
            } else {
                kept
            };
            Ok(
                window(sorted, shape.skip, shape.limit).map_values(
                    |output: OutputView| output_json(shape.slots, output),
                ),
            )
        },
    }
}

/// The rows of a read after its predicate and its deduplication stages.
pub open spec fn prepared(shape: ShapeView, sources: ValueSources, rows: Seq<RowView>) -> Result<
    Seq<RowView>,
    GraphErrorView,
> {
    match filter::filtered(shape, sources, rows) {
        Ok(passed) => filter::stages_from(shape, sources, passed, 0),
        Err(error) => Err(error),
    }
}

/// The values of a read.
pub open spec fn projected(
    shape: ShapeView,
    sources: ValueSources,
    rows: Seq<RowView>,
    hydrate: bool,
    sums: Seq<JsonView>,
) -> Result<Seq<JsonView>, GraphErrorView> {
    match prepared(shape, sources, rows) {
        Err(error) => Err(error),
        Ok(kept) => match outputs(shape, sources, kept, hydrate, sums) {
            Err(error) => Err(error),
            Ok(found) => finished(shape, found),
        },
    }
}

/// The inputs of the sums and means of a read.
pub open spec fn summed(
    shape: ShapeView,
    sources: ValueSources,
    rows: Seq<RowView>,
    hydrate: bool,
) -> Result<Seq<SumInputView>, GraphErrorView> {
    match prepared(shape, sources, rows) {
        Err(error) => Err(error),
        Ok(kept) => match aggregate::grouped(shape, sources, kept) {
            Err(error) => Err(error),
            Ok(groups) => aggregate::sums_from(
                shape,
                sources,
                groups,
                hydrate,
                0,
                Seq::empty(),
            ),
        },
    }
}

// ---------------------------------------------------------------------------
// Execution
// ---------------------------------------------------------------------------

fn find_named(slots: &Vec<ReturnSlot>, name: &str) -> (at: Option<usize>)
    ensures
        match at {
            Some(at) => last_named(views::views(slots@), name@, slots@.len()) == Some(at as int)
                && at < slots@.len(),
            None => last_named(views::views(slots@), name@, slots@.len()) is None,
        },
{
    let ghost all = views::views(slots@);
    let mut i: usize = slots.len();
    while i > 0
        invariant
            i <= slots@.len(),
            all == views::views(slots@),
            last_named(all, name@, i as nat) == last_named(all, name@, slots@.len()),
        decreases i,
    {
        i = i - 1;
        assert(all[i as int] == slots@[i as int]@);
        if same_text(name_of_slot(&slots[i]).as_str(), name) {
            return Some(i);
        }
    }
    None
}

fn order_outputs(order_by: &Vec<SortBinding>, a: &Output, b: &Output) -> (order: JsonOrder)
    ensures
        order == output_order(views::views(order_by@), a@, b@, 0),
{
    let ghost keys = views::views(order_by@);
    for i in 0..order_by.len()
        invariant
            keys == views::views(order_by@),
            output_order(keys, a@, b@, i as int) == output_order(keys, a@, b@, 0),
    {
        if i >= a.sort.len() || i >= b.sort.len() {
            return JsonOrder::Equal;
        }
        assert(keys[i as int] == order_by@[i as int]@);
        assert(a@.sort[i as int] == a.sort@[i as int]@);
        assert(b@.sort[i as int] == b.sort@[i as int]@);
        let order: JsonOrder = total_json_order(&a.sort[i], &b.sort[i]);
        match order {
            JsonOrder::Equal => {},
            _ => {
                return if order_by[i].desc {
                    order.reverse()
                } else {
                    order
                };
            },
        }
    }
    JsonOrder::Equal
}

fn insert_sorted(order_by: &Vec<SortBinding>, sorted: &mut Vec<Output>, output: Output)
    ensures
        views::views(final(sorted)@) == views::views(old(sorted)@).insert(
            output_place(
                views::views(order_by@),
                views::views(old(sorted)@),
                output@,
                old(sorted)@.len(),
            ) as int,
            output@,
        ),
{
    let ghost keys = views::views(order_by@);
    let ghost before = views::views(sorted@);
    let mut at: usize = sorted.len();
    while at > 0 && matches!(order_outputs(order_by, &output, &sorted[at - 1]), JsonOrder::Less)
        invariant
            at <= sorted@.len(),
            keys == views::views(order_by@),
            before == views::views(sorted@),
            output_place(keys, before, output@, at as nat) == output_place(
                keys,
                before,
                output@,
                before.len(),
            ),
        decreases at,
    {
        assert(before[at - 1] == sorted@[at - 1]@);
        at = at - 1;
    }
    proof {
        if at > 0 {
            assert(before[at - 1] == sorted@[at - 1]@);
        }
    }
    sorted.insert(at, output);
    assert(views::views(sorted@) =~= before.insert(at as int, output@));
}

fn sort_outputs(order_by: &Vec<SortBinding>, found: Vec<Output>) -> (sorted: Vec<Output>)
    ensures
        views::views(sorted@) == sorted_outputs(
            views::views(order_by@),
            views::views(found@),
            found@.len(),
        ),
{
    let ghost keys = views::views(order_by@);
    let ghost all = views::views(found@);
    let mut sorted: Vec<Output> = Vec::new();
    assert(views::views(sorted@) =~= Seq::empty());
    for output in iter: found
        invariant
            iter.seq() == found@,
            keys == views::views(order_by@),
            all == views::views(found@),
            views::views(sorted@) == sorted_outputs(keys, all, iter.index() as nat),
    {
        proof {
            let i = iter.index();
            assert(all[i] == found@[i]@);
            assert(views::views(sorted@).len() == sorted@.len());
        }
        insert_sorted(order_by, &mut sorted, output);
    }
    sorted
}

fn distinct_outputs(found: Vec<Output>) -> (result: GraphResult<Vec<Output>>)
    ensures
        match distinct_from(views::views(found@), 0, Set::empty(), Seq::empty()) {
            Ok(kept) => result matches Ok(given) && views::views(given@) == kept,
            Err(error) => result matches Err(given) && given@ == error,
        },
{
    let ghost all = views::views(found@);
    let mut kept: Vec<Output> = Vec::new();
    let mut seen: NameSet = NameSet::new();
    proof {
        assert(views::views(kept@) =~= Seq::empty());
        assert(seen@.to_set() =~= Set::<Seq<char>>::empty());
    }
    for output in iter: found
        invariant
            iter.seq() == found@,
            seen.wf(),
            all == views::views(found@),
            distinct_from(all, iter.index() as int, seen@.to_set(), views::views(kept@))
                == distinct_from(all, 0, Set::empty(), Seq::empty()),
    {
        let ghost i = iter.index();
        assert(all[i] == found@[i]@);
        let ghost earlier = kept@;
        let key: String = key_of_values(&output.values);
        proof {
            if seen@.contains(key@) {
                assert(seen@.to_set() =~= seen@.to_set().insert(key@));
            }
        }
        if seen.insert(key.as_str()) {
            if kept.len() >= MAX_GQL_DISTINCT_KEYS {
                return Err(distinct_cap_error());
            }
            kept.push(output);
            proof {
                views::lemma_push(earlier, output);
            }
        }
    }
    Ok(kept)
}

fn key_of_values(values: &Vec<Json>) -> (key: String)
    ensures
        key@ == filter::key_text(views::views(values@)),
{
    let mut copies: Vec<Json> = Vec::new();
    for i in 0..values.len()
        invariant
            copies@.len() == i,
            forall|j: int| 0 <= j < i ==> (#[trigger] copies@[j])@ == values@[j]@,
    {
        copies.push(duplicate_json(&values[i]));
    }
    assert(views::views(copies@) =~= views::views(values@));
    text_key(copies)
}

fn json_of_output(slots: &Vec<ReturnSlot>, output: &Output) -> (value: Json)
    ensures
        value@ == output_json(views::views(slots@), output@),
{
    let ghost all = views::views(slots@);
    let mut entries: Vec<(String, Json)> = Vec::new();
    assert(json::entry_views(entries@) =~= Seq::empty());
    let mut i: usize = 0;
    while i < slots.len() && i < output.values.len()
        invariant
            i <= slots@.len(),
            i <= output.values@.len(),
            all == views::views(slots@),
            entries_from(all, output@.values, i as int, json::entry_views(entries@))
                == entries_from(all, output@.values, 0, Seq::empty()),
        decreases slots@.len() - i,
    {
        assert(all[i as int] == slots@[i as int]@);
        assert(output@.values[i as int] == output.values@[i as int]@);
        set_entry(
            &mut entries,
            name_of_slot(&slots[i]).clone(),
            duplicate_json(&output.values[i]),
        );
        i = i + 1;
    }
    proof {
        json::lemma_object_view(entries);
    }
    Json::Object(entries)
}

fn clamp(value: u64, most: usize) -> (least_value: usize)
    ensures
        least_value == least(value as int, most as int),
{
    if value < most as u64 {
        value as usize
    } else {
        most
    }
}

impl<'a> Projector<'a> {
    fn value_to_sort_by(&self, first: Option<&GqlRow>, values: &Vec<Json>, key: &SortBindingKey) -> (result:
        GraphResult<Json>)
        requires
            self.wf(),
            values@.len() == self.shape.slots@.len(),
        ensures
            safety::outcome(result) == sort_value(
                self.shape@,
                self.sources(),
                match first {
                    Some(row) => Some(row@),
                    None => None,
                },
                views::views(values@),
                key@,
            ),
    {
        match key {
            SortBindingKey::ReturnName(name) => match find_named(self.shape.slots, name.as_str()) {
                None => Ok(Json::Null),
                Some(at) => {
                    let slot: &ReturnSlot = &self.shape.slots[at];
                    assert(self.shape@.slots[at as int] == slot@);
                    match slot {
                        ReturnSlot::Aggregate { .. } => {
                            assert(views::views(values@)[at as int] == values@[at as int]@);
                            Ok(duplicate_json(&values[at]))
                        },
                        _ => match first {
                            Some(row) => self.value_of_slot(row, slot, true),
                            None => Ok(Json::Null),
                        },
                    }
                },
            },
            SortBindingKey::Property { side, property } => match first {
                None => Ok(Json::Null),
                Some(row) => {
                    let value: Option<Json> = self.reader.property(
                        side_node(row, *side),
                        property.as_str(),
                    )?;
                    match value {
                        Some(value) => Ok(value),
                        None => Ok(Json::Null),
                    }
                },
            },
        }
    }

    fn values_to_sort_by(&self, first: Option<&GqlRow>, values: &Vec<Json>) -> (result: GraphResult<
        Vec<Json>,
    >)
        requires
            self.wf(),
            values@.len() == self.shape.slots@.len(),
        ensures
            match sort_values_from(
                self.shape@,
                self.sources(),
                match first {
                    Some(row) => Some(row@),
                    None => None,
                },
                views::views(values@),
                0,
                Seq::empty(),
            ) {
                Ok(sort) => result matches Ok(given) && views::views(given@) == sort,
                Err(error) => result matches Err(given) && given@ == error,
            },
    {
        let ghost row = match first {
            Some(row) => Some(row@),
            None => None,
        };
        let ghost all = views::views(values@);
        let mut sort: Vec<Json> = Vec::new();
        assert(views::views(sort@) =~= Seq::empty());
        for i in 0..self.shape.order_by.len()
            invariant
                self.wf(),
                values@.len() == self.shape.slots@.len(),
                row == (match first {
                    Some(row) => Some(row@),
                    None => None,
                }),
                all == views::views(values@),
                sort_values_from(
                    self.shape@,
                    self.sources(),
                    row,
                    all,
                    i as int,
                    views::views(sort@),
                ) == sort_values_from(self.shape@, self.sources(), row, all, 0, Seq::empty()),
        {
            assert(self.shape@.order_by[i as int] == self.shape.order_by@[i as int]@);
            let ghost earlier = sort@;
            let value: Json = self.value_to_sort_by(first, values, &self.shape.order_by[i].key)?;
            sort.push(value);
            proof {
                views::lemma_push(earlier, value);
            }
        }
        Ok(sort)
    }

    fn outputs_of_rows(&self, rows: &Vec<GqlRow>) -> (result: GraphResult<Vec<Output>>)
        requires
            self.wf(),
        ensures
            match row_outputs_from(
                self.shape@,
                self.sources(),
                views::views(rows@),
                self.hydrate,
                0,
                Seq::empty(),
            ) {
                Ok(found) => result matches Ok(given) && views::views(given@) == found,
                Err(error) => result matches Err(given) && given@ == error,
            },
    {
        let ghost all = views::views(rows@);
        let mut found: Vec<Output> = Vec::new();
        assert(views::views(found@) =~= Seq::empty());
        for i in 0..rows.len()
            invariant
                self.wf(),
                all == views::views(rows@),
                row_outputs_from(
                    self.shape@,
                    self.sources(),
                    all,
                    self.hydrate,
                    i as int,
                    views::views(found@),
                ) == row_outputs_from(
                    self.shape@,
                    self.sources(),
                    all,
                    self.hydrate,
                    0,
                    Seq::empty(),
                ),
        {
            let row: &GqlRow = &rows[i];
            assert(all[i as int] == row@);
            let ghost earlier = found@;
            let values: Vec<Json> = self.values_of_row(row, self.shape.slots, self.hydrate)?;
            proof {
                lemma_values_len(
                    self.shape@,
                    self.sources(),
                    row@,
                    self.shape@.slots,
                    self.hydrate,
                    0,
                    Seq::empty(),
                );
                assert(views::views(values@).len() == values@.len());
            }
            let sort: Vec<Json> = self.values_to_sort_by(Some(row), &values)?;
            let output: Output = Output { values, sort };
            found.push(output);
            proof {
                views::lemma_push(earlier, output);
            }
        }
        Ok(found)
    }

    fn outputs_of_groups(&self, groups: &Vec<Group>, sums: &Vec<Json>) -> (result: GraphResult<
        Vec<Output>,
    >)
        requires
            self.wf(),
            groups@.len() * self.shape.slots@.len() <= usize::MAX,
        ensures
            match group_outputs_from(
                self.shape@,
                self.sources(),
                views::views(groups@),
                self.hydrate,
                views::views(sums@),
                0,
                0,
                Seq::empty(),
            ) {
                Ok(found) => result matches Ok(given) && views::views(given@) == found,
                Err(error) => result matches Err(given) && given@ == error,
            },
    {
        let ghost all = views::views(groups@);
        let ghost given = views::views(sums@);
        let ghost width = self.shape.slots@.len();
        let mut found: Vec<Output> = Vec::new();
        let mut next: usize = 0;
        assert(views::views(found@) =~= Seq::empty());
        for i in 0..groups.len()
            invariant
                self.wf(),
                width == self.shape.slots@.len(),
                groups@.len() * width <= usize::MAX,
                next <= i * width,
                all == views::views(groups@),
                given == views::views(sums@),
                group_outputs_from(
                    self.shape@,
                    self.sources(),
                    all,
                    self.hydrate,
                    given,
                    i as int,
                    next as nat,
                    views::views(found@),
                ) == group_outputs_from(
                    self.shape@,
                    self.sources(),
                    all,
                    self.hydrate,
                    given,
                    0,
                    0,
                    Seq::empty(),
                ),
        {
            let group: &Group = &groups[i];
            assert(all[i as int] == group@);
            let ghost earlier = found@;
            proof {
                assert(i * width + width == (i + 1) * width) by (nonlinear_arith);
                assert((i + 1) * width <= groups@.len() * width) by (nonlinear_arith)
                    requires
                        i + 1 <= groups@.len(),
                ;
                lemma_group_values_len(
                    self.shape@,
                    self.sources(),
                    group@.rows,
                    self.hydrate,
                    given,
                    0,
                    next as nat,
                    Seq::empty(),
                );
            }
            let made: (Vec<Json>, usize) = self.values_of_group(&group.rows, sums, next)?;
            next = made.1;
            let values: Vec<Json> = made.0;
            assert(views::views(values@).len() == values@.len());
            let first: Option<&GqlRow> = if group.rows.len() > 0 {
                assert(group@.rows[0] == group.rows@[0]@);
                Some(&group.rows[0])
            } else {
                None
            };
            let sort: Vec<Json> = self.values_to_sort_by(first, &values)?;
            let output: Output = Output { values, sort };
            found.push(output);
            proof {
                views::lemma_push(earlier, output);
            }
        }
        Ok(found)
    }

    fn finish(&self, found: Vec<Output>) -> (result: GraphResult<Vec<Json>>)
        ensures
            match finished(self.shape@, views::views(found@)) {
                Ok(values) => result matches Ok(given) && views::views(given@) == values,
                Err(error) => result matches Err(given) && given@ == error,
            },
    {
        let kept: Vec<Output> = if self.shape.distinct {
            distinct_outputs(found)?
        } else {
            found
        };
        let sorted: Vec<Output> = if self.shape.order_by.len() > 0 {
            sort_outputs(self.shape.order_by, kept)
        } else {
            kept
        };
        let ghost all = views::views(sorted@);
        let count: usize = sorted.len();
        let start: usize = match self.shape.skip {
            Some(skip) => clamp(skip, count),
            None => 0,
        };
        let taken: usize = match self.shape.limit {
            Some(limit) => clamp(limit, count - start),
            None => count - start,
        };
        let ghost wanted = window(all, self.shape.skip, self.shape.limit).map_values(
            |output: OutputView| output_json(self.shape@.slots, output),
        );
        let mut values: Vec<Json> = Vec::new();
        assert(views::views(values@) =~= wanted.take(0));
        for i in 0..taken
            invariant
                count == sorted@.len(),
                start + taken <= count,
                all == views::views(sorted@),
                window(all, self.shape.skip, self.shape.limit) == all.subrange(
                    start as int,
                    start + taken,
                ),
                wanted == window(all, self.shape.skip, self.shape.limit).map_values(
                    |output: OutputView| output_json(self.shape@.slots, output),
                ),
                views::views(values@) == wanted.take(i as int),
        {
            let ghost earlier = values@;
            assert(all[start + i] == sorted@[start + i]@);
            let value: Json = json_of_output(self.shape.slots, &sorted[start + i]);
            values.push(value);
            proof {
                views::lemma_push(earlier, value);
                assert(wanted.take(i + 1) =~= wanted.take(i as int).push(value@));
            }
        }
        assert(wanted.take(taken as int) =~= wanted);
        Ok(values)
    }

    fn prepare(&self, rows: &Vec<GqlRow>) -> (result: GraphResult<Vec<GqlRow>>)
        requires
            self.wf(),
        ensures
            match prepared(self.shape@, self.sources(), views::views(rows@)) {
                Ok(kept) => result matches Ok(given) && views::views(given@) == kept,
                Err(error) => result matches Err(given) && given@ == error,
            },
    {
        let passed: Vec<GqlRow> = self.filter(rows)?;
        self.deduplicate(passed)
    }

    /// The values of a read.
    pub fn project(&self, rows: &Vec<GqlRow>, sums: &Vec<Json>) -> (result: GraphResult<Vec<Json>>)
        requires
            self.wf(),
            (rows@.len() + 1) * self.shape.slots@.len() <= usize::MAX,
        ensures
            match projected(
                self.shape@,
                self.sources(),
                views::views(rows@),
                self.hydrate,
                views::views(sums@),
            ) {
                Ok(values) => result matches Ok(given) && views::views(given@) == values,
                Err(error) => result matches Err(given) && given@ == error,
            },
    {
        let kept: Vec<GqlRow> = self.prepare(rows)?;
        let found: Vec<Output> = if returns_aggregates(self.shape.slots) {
            let groups: Vec<Group> = self.group(&kept)?;
            proof {
                lemma_prepared_len(self.shape@, self.sources(), views::views(rows@));
                lemma_grouped_len(
                    self.shape@,
                    self.sources(),
                    views::views(kept@),
                    0,
                    aggregate::first_groups(self.shape@.slots),
                );
                assert(views::views(groups@).len() == groups@.len());
                assert(views::views(rows@).len() == rows@.len());
                assert(groups@.len() * self.shape.slots@.len() <= (rows@.len() + 1)
                    * self.shape.slots@.len()) by (nonlinear_arith)
                    requires
                        groups@.len() <= rows@.len() + 1,
                ;
            }
            self.outputs_of_groups(&groups, sums)?
        } else {
            self.outputs_of_rows(&kept)?
        };
        self.finish(found)
    }

    /// The inputs of the sums and means of a read.
    pub fn inputs_of_sums(&self, rows: &Vec<GqlRow>) -> (result: GraphResult<Vec<SumInput>>)
        requires
            self.wf(),
        ensures
            match summed(self.shape@, self.sources(), views::views(rows@), self.hydrate) {
                Ok(found) => result matches Ok(given) && views::views(given@) == found,
                Err(error) => result matches Err(given) && given@ == error,
            },
    {
        let kept: Vec<GqlRow> = self.prepare(rows)?;
        let groups: Vec<Group> = self.group(&kept)?;
        self.sums_of_groups(&groups)
    }
}

proof fn lemma_values_len(
    shape: ShapeView,
    sources: ValueSources,
    row: RowView,
    slots: Seq<ReturnSlotView>,
    hydrate: bool,
    from: int,
    done: Seq<JsonView>,
)
    requires
        0 <= from <= slots.len(),
        done.len() == from,
    ensures
        slots::values_from(shape, sources, row, slots, hydrate, from, done) matches Ok(values)
            ==> values.len() == slots.len(),
    decreases slots.len() - from,
{
    if from < slots.len() {
        if let Ok(value) = slots::slot_value(shape, sources, row, slots[from], hydrate) {
            lemma_values_len(shape, sources, row, slots, hydrate, from + 1, done.push(value));
        }
    }
}

proof fn lemma_group_values_len(
    shape: ShapeView,
    sources: ValueSources,
    rows: Seq<RowView>,
    hydrate: bool,
    sums: Seq<JsonView>,
    from: int,
    next: nat,
    done: Seq<JsonView>,
)
    requires
        0 <= from <= shape.slots.len(),
        done.len() == from,
    ensures
        aggregate::group_values_from(
            shape,
            sources,
            rows,
            hydrate,
            sums,
            from,
            next,
            done,
        ) matches Ok(made) ==> made.0.len() == shape.slots.len(),
    decreases shape.slots.len() - from,
{
    if from < shape.slots.len() {
        match shape.slots[from] {
            ReturnSlotView::Aggregate { func, arg, distinct, .. } => {
                if let Ok(values) = aggregate::inputs(
                    shape,
                    sources,
                    rows,
                    func,
                    arg,
                    distinct,
                    hydrate,
                ) {
                    lemma_group_values_len(
                        shape,
                        sources,
                        rows,
                        hydrate,
                        sums,
                        from + 1,
                        if aggregate::is_sum(func) {
                            next + 1
                        } else {
                            next
                        },
                        done.push(
                            aggregate::aggregate_value(
                                func,
                                values,
                                aggregate::item_at(sums, next),
                            ),
                        ),
                    );
                }
            },
            slot => {
                if rows.len() == 0 {
                    lemma_group_values_len(
                        shape,
                        sources,
                        rows,
                        hydrate,
                        sums,
                        from + 1,
                        next,
                        done.push(JsonView::Null),
                    );
                } else if let Ok(value) = slots::slot_value(
                    shape,
                    sources,
                    rows[0],
                    slot,
                    hydrate,
                ) {
                    lemma_group_values_len(
                        shape,
                        sources,
                        rows,
                        hydrate,
                        sums,
                        from + 1,
                        next,
                        done.push(value),
                    );
                }
            },
        }
    }
}

proof fn lemma_filtered_len(
    shape: ShapeView,
    sources: ValueSources,
    rows: Seq<RowView>,
    from: int,
    kept: bool,
    done: Seq<RowView>,
)
    requires
        0 <= from <= rows.len(),
        done.len() <= from,
    ensures
        filter::filtered_from(shape, sources, rows, from, kept, done) matches Ok(found)
            ==> found.len() <= rows.len(),
    decreases rows.len() - from,
{
    if from < rows.len() {
        if let Ok(passes) = filter::row_passes(shape, sources, rows[from]) {
            let now_kept = passes || (kept && filter::continues(rows, from));
            let more = if passes {
                done.push(rows[from])
            } else if shape.optional && !now_kept && !filter::continues(rows, from + 1) {
                done.push(filter::missing_row(rows[from]))
            } else {
                done
            };
            lemma_filtered_len(shape, sources, rows, from + 1, now_kept, more);
        }
    }
}

proof fn lemma_stage_len(
    shape: ShapeView,
    sources: ValueSources,
    slots: Seq<ReturnSlotView>,
    rows: Seq<RowView>,
    from: int,
    seen: Set<Seq<char>>,
    done: Seq<RowView>,
)
    requires
        0 <= from <= rows.len(),
        done.len() <= from,
    ensures
        filter::stage_from(shape, sources, slots, rows, from, seen, done) matches Ok(found)
            ==> found.len() <= rows.len(),
    decreases rows.len() - from,
{
    if from < rows.len() {
        if let Ok(values) = slots::row_values(shape, sources, rows[from], slots, false) {
            let key = filter::key_text(values);
            if seen.contains(key) {
                lemma_stage_len(shape, sources, slots, rows, from + 1, seen, done);
            } else {
                lemma_stage_len(
                    shape,
                    sources,
                    slots,
                    rows,
                    from + 1,
                    seen.insert(key),
                    done.push(rows[from]),
                );
            }
        }
    }
}

proof fn lemma_stages_len(
    shape: ShapeView,
    sources: ValueSources,
    rows: Seq<RowView>,
    from: int,
)
    requires
        0 <= from,
    ensures
        filter::stages_from(shape, sources, rows, from) matches Ok(found) ==> found.len()
            <= rows.len(),
    decreases shape.distinct_stages.len() - from,
{
    if from < shape.distinct_stages.len() {
        let slots = shape.distinct_stages[from];
        lemma_stage_len(shape, sources, slots, rows, 0, Set::empty(), Seq::empty());
        if let Ok(fewer) = filter::stage_from(
            shape,
            sources,
            slots,
            rows,
            0,
            Set::empty(),
            Seq::empty(),
        ) {
            lemma_stages_len(shape, sources, fewer, from + 1);
        }
    }
}

/// The predicate and the deduplication stages of a read add no rows.
pub proof fn lemma_prepared_len(shape: ShapeView, sources: ValueSources, rows: Seq<RowView>)
    ensures
        prepared(shape, sources, rows) matches Ok(kept) ==> kept.len() <= rows.len(),
{
    lemma_filtered_len(shape, sources, rows, 0, false, Seq::empty());
    if let Ok(passed) = filter::filtered(shape, sources, rows) {
        lemma_stages_len(shape, sources, passed, 0);
    }
}

proof fn lemma_grouped_len(
    shape: ShapeView,
    sources: ValueSources,
    rows: Seq<RowView>,
    from: int,
    groups: Seq<GroupView>,
)
    requires
        0 <= from <= rows.len(),
        groups.len() <= from + 1,
    ensures
        aggregate::grouped_from(shape, sources, rows, from, groups) matches Ok(found)
            ==> found.len() <= rows.len() + 1,
    decreases rows.len() - from,
{
    if from < rows.len() {
        if let Ok(values) = slots::row_values(shape, sources, rows[from], shape.slots, false) {
            aggregate::lemma_group_from(groups, filter::key_text(values), 0);
            lemma_grouped_len(
                shape,
                sources,
                rows,
                from + 1,
                aggregate::with_row(groups, filter::key_text(values), rows[from]),
            );
        }
    }
}

// ---------------------------------------------------------------------------
// Reads
// ---------------------------------------------------------------------------

fn projector<'a>(
    shape: slots::Shape<'a>,
    hydrated: &'a HydratedRows,
    params: &'a QueryParams,
    hydrate: bool,
) -> (made: Projector<'a>)
    ensures
        made.shape@ == shape@,
        made.shape.slots@ == shape.slots@,
        made.sources() == (ValueSources { hydrated: hydrated@, params: params@ }),
        made.reader.hydrated == hydrated,
        made.hydrate == hydrate,
{
    Projector { shape, reader: ValueReader { hydrated, params }, hydrate }
}

/// Project the rows of a relationship plan to JSON values. The sums and means of a
/// plan that returns any are given in `sums`, in the order of `sum_inputs`.
pub fn project_rows(
    rows: &Vec<GqlRow>,
    plan: &PhysicalPlan,
    hydrated: &HydratedRows,
    params: &QueryParams,
    hydrate_nodes: bool,
    sums: &Vec<Json>,
) -> (result: GraphResult<Vec<Json>>)
    requires
        hydrated.wf(),
        (rows@.len() + 1) * plan.returns@.len() <= usize::MAX,
    ensures
        match projected(
            slots::plan_shape(plan@),
            (ValueSources { hydrated: hydrated@, params: params@ }),
            views::views(rows@),
            hydrate_nodes,
            views::views(sums@),
        ) {
            Ok(values) => result matches Ok(given) && views::views(given@) == values,
            Err(error) => result matches Err(given) && given@ == error,
        },
        json_laws::rows_in_key_order(hydrated@) && json_laws::all_in_key_order(views::views(sums@))
            ==> (result matches Ok(given) ==> json_laws::all_in_key_order(views::views(given@))),
{
    proof {
        let sources = ValueSources { hydrated: hydrated@, params: params@ };
        if json_laws::rows_in_key_order(hydrated@) && json_laws::all_in_key_order(
            views::views(sums@),
        ) {
            json_laws::lemma_projected_in_key_order(
                slots::plan_shape(plan@),
                sources,
                views::views(rows@),
                hydrate_nodes,
                views::views(sums@),
            );
        }
    }
    let shape: slots::Shape = shape_of_plan(plan);
    projector(shape, hydrated, params, hydrate_nodes).project(rows, sums)
}

/// The inputs of the sums and means of a relationship plan: group by group, slot by
/// slot.
pub fn sum_inputs(
    rows: &Vec<GqlRow>,
    plan: &PhysicalPlan,
    hydrated: &HydratedRows,
    params: &QueryParams,
    hydrate_nodes: bool,
) -> (result: GraphResult<Vec<SumInput>>)
    requires
        hydrated.wf(),
    ensures
        match summed(
            slots::plan_shape(plan@),
            (ValueSources { hydrated: hydrated@, params: params@ }),
            views::views(rows@),
            hydrate_nodes,
        ) {
            Ok(found) => result matches Ok(given) && views::views(given@) == found,
            Err(error) => result matches Err(given) && given@ == error,
        },
{
    projector(shape_of_plan(plan), hydrated, params, hydrate_nodes).inputs_of_sums(rows)
}

/// The rows of a relationship plan that pass its predicate.
pub fn filter_rows(
    rows: &Vec<GqlRow>,
    plan: &PhysicalPlan,
    hydrated: &HydratedRows,
    params: &QueryParams,
) -> (result: GraphResult<Vec<GqlRow>>)
    requires
        hydrated.wf(),
    ensures
        match filter::filtered(
            slots::plan_shape(plan@),
            (ValueSources { hydrated: hydrated@, params: params@ }),
            views::views(rows@),
        ) {
            Ok(found) => result matches Ok(given) && views::views(given@) == found,
            Err(error) => result matches Err(given) && given@ == error,
        },
{
    projector(shape_of_plan(plan), hydrated, params, false).filter(rows)
}

/// The row of a scanned node.
pub open spec fn scan_row(node: CoordinateView) -> RowView {
    RowView {
        source: node,
        target: None,
        rel_start: None,
        rel_end: None,
        path_nodes: Seq::empty(),
        path_relationships: Seq::empty(),
    }
}

/// The rows of scanned nodes.
pub open spec fn scan_rows(nodes: Seq<CoordinateView>) -> Seq<RowView> {
    nodes.map_values(|node: CoordinateView| scan_row(node))
}

fn rows_of_scan(nodes: &Vec<GqlNodeRow>) -> (rows: Vec<GqlRow>)
    ensures
        views::views(rows@) == scan_rows(views::views(nodes@)),
{
    let mut rows: Vec<GqlRow> = Vec::new();
    for i in 0..nodes.len()
        invariant
            rows@.len() == i,
            forall|j: int| 0 <= j < i ==> (#[trigger] rows@[j])@ == scan_row(nodes@[j]@),
    {
        let row: GqlRow = GqlRow {
            source: nodes[i].node.duplicate(),
            target: None,
            rel_start: None,
            rel_end: None,
            path_nodes: Vec::new(),
            path_relationships: Vec::new(),
        };
        assert(row@ =~= scan_row(nodes@[i as int]@));
        rows.push(row);
    }
    assert(views::views(rows@) =~= scan_rows(views::views(nodes@)));
    rows
}

/// Project the rows of a node scan to JSON values. The sums and means of a scan that
/// returns any are given in `sums`, in the order of `node_sum_inputs`.
pub fn project_node_rows(
    rows: &Vec<GqlNodeRow>,
    plan: &PhysicalNodeScan,
    hydrated: &HydratedRows,
    params: &QueryParams,
    hydrate_nodes: bool,
    sums: &Vec<Json>,
) -> (result: GraphResult<Vec<Json>>)
    requires
        hydrated.wf(),
        (rows@.len() + 1) * plan.returns@.len() <= usize::MAX,
    ensures
        match projected(
            slots::scan_shape(plan@),
            (ValueSources { hydrated: hydrated@, params: params@ }),
            scan_rows(views::views(rows@)),
            hydrate_nodes,
            views::views(sums@),
        ) {
            Ok(values) => result matches Ok(given) && views::views(given@) == values,
            Err(error) => result matches Err(given) && given@ == error,
        },
        json_laws::rows_in_key_order(hydrated@) && json_laws::all_in_key_order(views::views(sums@))
            ==> (result matches Ok(given) ==> json_laws::all_in_key_order(views::views(given@))),
{
    proof {
        let sources = ValueSources { hydrated: hydrated@, params: params@ };
        if json_laws::rows_in_key_order(hydrated@) && json_laws::all_in_key_order(
            views::views(sums@),
        ) {
            json_laws::lemma_projected_in_key_order(
                slots::scan_shape(plan@),
                sources,
                scan_rows(views::views(rows@)),
                hydrate_nodes,
                views::views(sums@),
            );
        }
    }
    let shape: slots::Shape = shape_of_scan(plan);
    let matched: Vec<GqlRow> = rows_of_scan(rows);
    assert(views::views(matched@).len() == matched@.len());
    projector(shape, hydrated, params, hydrate_nodes).project(&matched, sums)
}

/// The inputs of the sums and means of a node scan: group by group, slot by slot.
pub fn node_sum_inputs(
    rows: &Vec<GqlNodeRow>,
    plan: &PhysicalNodeScan,
    hydrated: &HydratedRows,
    params: &QueryParams,
    hydrate_nodes: bool,
) -> (result: GraphResult<Vec<SumInput>>)
    requires
        hydrated.wf(),
    ensures
        match summed(
            slots::scan_shape(plan@),
            (ValueSources { hydrated: hydrated@, params: params@ }),
            scan_rows(views::views(rows@)),
            hydrate_nodes,
        ) {
            Ok(found) => result matches Ok(given) && views::views(given@) == found,
            Err(error) => result matches Err(given) && given@ == error,
        },
{
    let matched: Vec<GqlRow> = rows_of_scan(rows);
    projector(shape_of_scan(plan), hydrated, params, hydrate_nodes).inputs_of_sums(&matched)
}

/// Whether a slot reads a property.
pub open spec fn reads_property(slot: ReturnSlotView) -> bool {
    match slot {
        ReturnSlotView::Property { .. } => true,
        ReturnSlotView::Aggregate { arg, .. } => arg is Property,
        _ => false,
    }
}

/// Whether one of the slots reads a property.
pub open spec fn any_reads(slots: Seq<ReturnSlotView>) -> bool {
    exists|i: int| 0 <= i < slots.len() && reads_property(#[trigger] slots[i])
}

/// Whether a plan reads source rows: to return them, to filter or to order by them,
/// or for a property that it returns or deduplicates by.
pub open spec fn reads_rows(plan: PhysicalPlanView, hydrate: bool) -> bool {
    ||| hydrate
    ||| plan.predicate is Some
    ||| plan.order_by.len() > 0
    ||| any_reads(plan.returns)
    ||| exists|i: int| 0 <= i < plan.distinct_stages.len() && any_reads(#[trigger] plan.distinct_stages[i])
}

fn any_slot_reads(slots: &Vec<ReturnSlot>) -> (found: bool)
    ensures
        found == any_reads(views::views(slots@)),
{
    let ghost all = views::views(slots@);
    for i in 0..slots.len()
        invariant
            all == views::views(slots@),
            forall|j: int| 0 <= j < i ==> !reads_property(#[trigger] all[j]),
    {
        assert(all[i as int] == slots@[i as int]@);
        let reads: bool = match &slots[i] {
            ReturnSlot::Property { .. } => true,
            ReturnSlot::Aggregate { arg, .. } => match arg {
                AggregateArg::Property { .. } => true,
                _ => false,
            },
            _ => false,
        };
        if reads {
            assert(reads_property(all[i as int]));
            return true;
        }
    }
    false
}

/// Whether a plan reads source rows.
pub fn requires_hydration(plan: &PhysicalPlan, hydrate_nodes: bool) -> (required: bool)
    ensures
        required == reads_rows(plan@, hydrate_nodes),
{
    if hydrate_nodes || plan.predicate.is_some() || plan.order_by.len() > 0 || any_slot_reads(
        &plan.returns,
    ) {
        return true;
    }
    let ghost stages = plan@.distinct_stages;
    for i in 0..plan.distinct_stages.len()
        invariant
            stages == plan@.distinct_stages,
            forall|j: int| 0 <= j < i ==> !any_reads(#[trigger] stages[j]),
            !hydrate_nodes,
            plan@.predicate is None,
            plan@.order_by.len() == 0,
            !any_reads(plan@.returns),
    {
        assert(stages[i as int] == views::views(plan.distinct_stages@[i as int]@));
        if any_slot_reads(&plan.distinct_stages[i]) {
            assert(any_reads(stages[i as int]));
            return true;
        }
    }
    false
}

} // verus!
