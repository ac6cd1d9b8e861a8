//! What groups and aggregates are.
use vstd::prelude::*;

use crate::query::aggregate::{self, GroupView, SumInputView};
use crate::query::evaluate::{self, ValueSources};
use crate::query::filter;
use crate::query::filter_laws::{self, is_number};
use crate::query::json::{Json, JsonNumber, JsonView, NumberView};
use crate::query::json_order;
use crate::query::logical_plan::{AggregateArg, AggregateArgView, AggregateFunc, BindingSide};
use crate::query::names;
use crate::query::physical_plan::ReturnSlotView;
use crate::query::rows::RowView;
use crate::query::slots::{self, ShapeView};
use crate::safety::GraphErrorView;

verus! {

// ---------------------------------------------------------------------------
// Order of values
// ---------------------------------------------------------------------------

/// Whether numbers can be put in one order: floating-point ones are numbers, and either
/// all are integers or none is.
pub open spec fn orderable(a: JsonView, b: JsonView) -> bool {
    match (a, b) {
        (JsonView::Number(NumberView::Int(_)), JsonView::Number(NumberView::Int(_))) => true,
        (
            JsonView::Number(NumberView::Float(x)),
            JsonView::Number(NumberView::Float(y)),
        ) => is_number(x.bits) && is_number(y.bits),
        (JsonView::Number(_), JsonView::Number(_)) => false,
        _ => true,
    }
}

/// Whether all values can be put in one order.
pub open spec fn all_orderable(values: Seq<JsonView>) -> bool {
    forall|i: int, j: int|
        0 <= i < values.len() && 0 <= j < values.len() ==> orderable(
            #[trigger] values[i],
            #[trigger] values[j],
        )
}

/// Integers stand in the order of their values.
pub proof fn lemma_integers_stand_in_order(a: i64, b: i64)
    ensures
        ({
            let order = json_order::total_order(
                Json::Number(JsonNumber::Int(a))@,
                Json::Number(JsonNumber::Int(b))@,
            );
            &&& order is Less <==> a < b
            &&& order is Equal <==> a == b
            &&& order is Greater <==> a > b
        }),
{
}

/// Texts stand in the order of the dictionary.
pub proof fn lemma_texts_stand_in_order(a: String, b: String)
    ensures
        ({
            let order = json_order::total_order(Json::Text(a)@, Json::Text(b)@);
            &&& order is Less <==> filter_laws::stands_before(a@, b@)
            &&& order is Equal <==> a@ == b@
            &&& order is Greater <==> filter_laws::stands_before(b@, a@)
        }),
{
    filter_laws::lemma_texts_compare(a, b);
    names::lemma_names_compare(a@, b@);
}

/// Values of different kinds stand in the order null, truth values, numbers, texts,
/// arrays, objects; false stands before true.
pub proof fn lemma_kinds_stand_in_order(a: Json, b: Json)
    ensures
        a is Null && !(b is Null) ==> json_order::total_order(a@, b@) is Less,
        a is Bool && !(b is Null || b is Bool) ==> json_order::total_order(a@, b@) is Less,
        a is Number && (b is Text || b is Array || b is Object) ==> json_order::total_order(
            a@,
            b@,
        ) is Less,
        a is Text && (b is Array || b is Object) ==> json_order::total_order(a@, b@) is Less,
        a is Array && b is Object ==> json_order::total_order(a@, b@) is Less,
        a == Json::Bool(false) && b == Json::Bool(true) ==> json_order::total_order(a@, b@)
            is Less,
{
    if a == Json::Bool(false) && b == Json::Bool(true) {
        reveal_strlit("true");
        reveal_strlit("false");
        assert("false"@[0] < "true"@[0]);
    }
}

/// What stands before something that stands before a third value stands before that.
pub proof fn lemma_less_is_transitive(a: JsonView, b: JsonView, c: JsonView)
    requires
        orderable(a, b),
        orderable(b, c),
        orderable(a, c),
        json_order::total_order(a, b) is Less,
        json_order::total_order(b, c) is Less,
    ensures
        json_order::total_order(a, c) is Less,
{
    if let (JsonView::Text(x), JsonView::Text(y)) = (a, b) {
        if let JsonView::Text(z) = c {
            names::lemma_names_transitive(x, y, z);
        }
    }
    let x = json_order::json_text(a);
    let y = json_order::json_text(b);
    let z = json_order::json_text(c);
    if names::name_before(x, y) && names::name_before(y, z) {
        names::lemma_names_transitive(x, y, z);
    }
}

// ---------------------------------------------------------------------------
// Aggregates
// ---------------------------------------------------------------------------

proof fn lemma_extreme(values: Seq<JsonView>, from: int, best: JsonView, greatest: bool)
    requires
        all_orderable(values),
        1 <= from <= values.len(),
        values.take(from).contains(best),
        forall|i: int|
            0 <= i < from ==> !(if greatest {
                json_order::total_order(#[trigger] values[i], best) is Greater
            } else {
                json_order::total_order(values[i], best) is Less
            }),
    ensures
        ({
            let found = aggregate::extreme_from(values, from, best, greatest);
            &&& values.contains(found)
            &&& forall|i: int|
                0 <= i < values.len() ==> !(if greatest {
                    json_order::total_order(#[trigger] values[i], found) is Greater
                } else {
                    json_order::total_order(values[i], found) is Less
                })
        }),
    decreases values.len() - from,
{
    let k = choose|k: int| 0 <= k < from && values.take(from)[k] == best;
    assert(values[k] == best);
    if from < values.len() {
        let order = json_order::total_order(values[from], best);
        let better = if greatest {
            order is Greater
        } else {
            order is Less
        };
        let next = if better {
            values[from]
        } else {
            best
        };
        assert(values.take(from + 1)[k] == best);
        assert(values.take(from + 1)[from] == values[from]);
        assert forall|i: int| 0 <= i < from + 1 implies !(if greatest {
            json_order::total_order(#[trigger] values[i], next) is Greater
        } else {
            json_order::total_order(values[i], next) is Less
        }) by {
            assert(orderable(values[i], values[k]));
            assert(orderable(values[k], values[i]));
            assert(orderable(values[from], values[i]));
            assert(orderable(values[i], values[from]));
            assert(orderable(values[from], values[k]));
            assert(orderable(values[k], values[from]));
            json_order::lemma_total_order_flips(values[i], values[from]);
            json_order::lemma_total_order_flips(values[i], best);
            json_order::lemma_total_order_flips(values[from], best);
            if better && i < from {
                if greatest && json_order::total_order(values[i], values[from]) is Greater {
                    lemma_less_is_transitive(best, values[from], values[i]);
                }
                if !greatest && json_order::total_order(values[i], values[from]) is Less {
                    lemma_less_is_transitive(values[i], values[from], best);
                }
            }
        }
        lemma_extreme(values, from + 1, next, greatest);
    }
}

/// The least of values is one of them, and none stands before it; the greatest is one
/// of them, and none stands after it.
pub proof fn lemma_least_and_greatest(values: Seq<JsonView>, given: Option<JsonView>)
    requires
        values.len() > 0,
        all_orderable(values),
    ensures
        ({
            let least = aggregate::aggregate_value(AggregateFunc::Min, values, given);
            let greatest = aggregate::aggregate_value(AggregateFunc::Max, values, given);
            &&& values.contains(least)
            &&& values.contains(greatest)
            &&& forall|i: int|
                0 <= i < values.len() ==> {
                    &&& !(json_order::total_order(#[trigger] values[i], least) is Less)
                    &&& !(json_order::total_order(values[i], greatest) is Greater)
                }
        }),
{
    assert(values.take(1)[0] == values[0]);
    json_order::lemma_total_order_flips(values[0], values[0]);
    lemma_extreme(values, 1, values[0], false);
    lemma_extreme(values, 1, values[0], true);
}

/// The values of integers.
pub open spec fn integer_values(numbers: Seq<i64>) -> Seq<JsonView> {
    numbers.map_values(|n: i64| Json::Number(JsonNumber::Int(n))@)
}

/// The least of integers is one of them that is no greater than any; the greatest is
/// one that is no less than any.
pub proof fn lemma_least_and_greatest_integer(numbers: Seq<i64>, given: Option<JsonView>)
    requires
        numbers.len() > 0,
    ensures
        exists|k: int|
            0 <= k < numbers.len() && aggregate::aggregate_value(
                AggregateFunc::Min,
                integer_values(numbers),
                given,
            ) == Json::Number(JsonNumber::Int(#[trigger] numbers[k]))@ && forall|i: int|
                0 <= i < numbers.len() ==> numbers[k] <= #[trigger] numbers[i],
        exists|k: int|
            0 <= k < numbers.len() && aggregate::aggregate_value(
                AggregateFunc::Max,
                integer_values(numbers),
                given,
            ) == Json::Number(JsonNumber::Int(#[trigger] numbers[k]))@ && forall|i: int|
                0 <= i < numbers.len() ==> numbers[k] >= #[trigger] numbers[i],
{
    let values = integer_values(numbers);
    assert(all_orderable(values));
    lemma_least_and_greatest(values, given);
    let least = aggregate::aggregate_value(AggregateFunc::Min, values, given);
    let greatest = aggregate::aggregate_value(AggregateFunc::Max, values, given);
    let k = values.index_of(least);
    let g = values.index_of(greatest);
    assert forall|i: int| 0 <= i < numbers.len() implies numbers[k] <= #[trigger] numbers[i] by {
        assert(!(json_order::total_order(values[i], least) is Less));
    }
    assert forall|i: int| 0 <= i < numbers.len() implies numbers[g] >= #[trigger] numbers[i] by {
        assert(!(json_order::total_order(values[i], greatest) is Greater));
    }
    assert(least == Json::Number(JsonNumber::Int(numbers[k]))@);
    assert(greatest == Json::Number(JsonNumber::Int(numbers[g]))@);
}

/// `count` is the number of values, `collect` the array of them, and a sum or a mean
/// what is given for it; without values the least, the greatest, the sum and the mean
/// are null.
pub proof fn lemma_count_collect_and_sums(values: Seq<JsonView>, given: Option<JsonView>)
    ensures
        aggregate::aggregate_value(AggregateFunc::Count, values, given) == JsonView::Number(
            NumberView::Int(values.len() as int),
        ),
        aggregate::aggregate_value(AggregateFunc::Collect, values, given) == JsonView::Array(
            values,
        ),
        values.len() > 0 ==> (given matches Some(result) ==> {
            &&& aggregate::aggregate_value(AggregateFunc::Sum, values, given) == result
            &&& aggregate::aggregate_value(AggregateFunc::Avg, values, given) == result
        }),
        values.len() == 0 ==> forall|func: AggregateFunc|
            !(func is Count || func is Collect) ==> (#[trigger] aggregate::aggregate_value(
                func,
                values,
                given,
            )) is Null,
{
}

// ---------------------------------------------------------------------------
// Inputs
// ---------------------------------------------------------------------------

proof fn lemma_inputs(
    shape: ShapeView,
    sources: ValueSources,
    rows: Seq<RowView>,
    arg: AggregateArgView,
    hydrate: bool,
    found: Seq<JsonView>,
    from: int,
    done: Seq<JsonView>,
)
    requires
        found.len() == rows.len(),
        0 <= from <= rows.len(),
        forall|i: int|
            0 <= i < rows.len() ==> aggregate::arg_value(
                shape,
                sources,
                #[trigger] rows[i],
                arg,
                hydrate,
            ) == Ok::<_, GraphErrorView>(found[i]),
        done == found.take(from).filter(|value: JsonView| !(value is Null)),
    ensures
        aggregate::inputs_from(shape, sources, rows, arg, hydrate, from, done) == Ok::<
            _,
            GraphErrorView,
        >(found.filter(|value: JsonView| !(value is Null))),
    decreases rows.len() - from,
{
    reveal(Seq::filter);
    let keep = |value: JsonView| !(value is Null);
    if from < rows.len() {
        assert(aggregate::arg_value(shape, sources, rows[from], arg, hydrate) == Ok::<
            _,
            GraphErrorView,
        >(found[from]));
        assert(found.take(from + 1).drop_last() =~= found.take(from));
        let more = if found[from] is Null {
            done
        } else {
            done.push(found[from])
        };
        assert(more == found.take(from + 1).filter(keep));
        lemma_inputs(shape, sources, rows, arg, hydrate, found, from + 1, more);
    } else {
        assert(found.take(from) =~= found);
    }
}

proof fn lemma_no_nulls(found: Seq<JsonView>)
    requires
        forall|i: int| 0 <= i < found.len() ==> !((#[trigger] found[i]) is Null),
    ensures
        found.filter(|value: JsonView| !(value is Null)) == found,
    decreases found.len(),
{
    reveal(Seq::filter);
    if found.len() > 0 {
        let init = found.drop_last();
        assert forall|i: int| 0 <= i < init.len() implies !((#[trigger] init[i]) is Null) by {
            assert(init[i] == found[i]);
        }
        lemma_no_nulls(init);
        assert(!(found[found.len() - 1] is Null));
        assert(init.push(found.last()) =~= found);
    }
}

/// `count(*)` counts the rows of the group.
pub proof fn lemma_count_of_all_counts_rows(
    shape: ShapeView,
    sources: ValueSources,
    rows: Seq<RowView>,
    hydrate: bool,
)
    ensures
        aggregate::inputs(
            shape,
            sources,
            rows,
            AggregateFunc::Count,
            AggregateArg::All@,
            false,
            hydrate,
        ) matches Ok(values) && values.len() == rows.len() && aggregate::aggregate_value(
            AggregateFunc::Count,
            values,
            None,
        ) == JsonView::Number(NumberView::Int(rows.len() as int)),
{
    reveal(Seq::filter);
    let found = rows.map_values(|row: RowView| JsonView::Bool(true));
    assert(found.take(0) =~= Seq::<JsonView>::empty());
    lemma_inputs(shape, sources, rows, AggregateArgView::All, false, found, 0, Seq::empty());
    lemma_no_nulls(found);
}

/// The property of the node on a side of a match, null where there is none.
pub open spec fn property_or_null(
    sources: ValueSources,
    row: RowView,
    side: BindingSide,
    property: Seq<char>,
) -> Result<JsonView, GraphErrorView> {
    match evaluate::node_property(sources, evaluate::side_of(row, side), property) {
        Ok(Some(value)) => Ok(value),
        Ok(None) => Ok(JsonView::Null),
        Err(error) => Err(error),
    }
}

/// An aggregate over a property takes the property of every row of the group, in their
/// order, and leaves out nulls.
pub proof fn lemma_inputs_are_properties(
    shape: ShapeView,
    sources: ValueSources,
    rows: Seq<RowView>,
    func: AggregateFunc,
    side: BindingSide,
    property: String,
    hydrate: bool,
    found: Seq<JsonView>,
)
    requires
        found.len() == rows.len(),
        forall|i: int|
            0 <= i < rows.len() ==> property_or_null(
                sources,
                #[trigger] rows[i],
                side,
                property@,
            ) == Ok::<_, GraphErrorView>(found[i]),
    ensures
        aggregate::inputs(
            shape,
            sources,
            rows,
            func,
            AggregateArg::Property { side, property }@,
            false,
            hydrate,
        ) == Ok::<_, GraphErrorView>(found.filter(|value: JsonView| !(value is Null))),
{
    reveal(Seq::filter);
    let arg = AggregateArg::Property { side, property }@;
    let wanted = hydrate && func is Collect;
    assert(found.take(0) =~= Seq::<JsonView>::empty());
    assert forall|i: int| 0 <= i < rows.len() implies aggregate::arg_value(
        shape,
        sources,
        #[trigger] rows[i],
        arg,
        wanted,
    ) == Ok::<_, GraphErrorView>(found[i]) by {
        assert(property_or_null(sources, rows[i], side, property@) == Ok::<_, GraphErrorView>(
            found[i],
        ));
    }
    lemma_inputs(shape, sources, rows, arg, wanted, found, 0, Seq::empty());
}

/// Whether one of values has a text.
pub open spec fn has_text(values: Seq<JsonView>, text: Seq<char>) -> bool {
    exists|k: int| 0 <= k < values.len() && json_order::json_text(#[trigger] values[k]) == text
}

/// Whether no two of values have the same text.
pub open spec fn texts_differ(values: Seq<JsonView>) -> bool {
    forall|j: int, k: int|
        0 <= j < k < values.len() ==> json_order::json_text(#[trigger] values[j])
            != json_order::json_text(#[trigger] values[k])
}

proof fn lemma_unique(
    values: Seq<JsonView>,
    from: int,
    seen: Set<Seq<char>>,
    done: Seq<JsonView>,
)
    requires
        0 <= from <= values.len(),
        aggregate::unique_from(values, from, seen, done) is Ok,
        forall|text: Seq<char>| #[trigger] seen.contains(text) <==> has_text(done, text),
        forall|i: int|
            0 <= i < from ==> seen.contains(json_order::json_text(#[trigger] values[i])),
        forall|k: int| 0 <= k < done.len() ==> values.contains(#[trigger] done[k]),
        texts_differ(done),
    ensures
        ({
            let found = aggregate::unique_from(values, from, seen, done)->Ok_0;
            &&& forall|k: int| 0 <= k < found.len() ==> values.contains(#[trigger] found[k])
            &&& texts_differ(found)
            &&& forall|i: int|
                0 <= i < values.len() ==> has_text(
                    found,
                    json_order::json_text(#[trigger] values[i]),
                )
        }),
    decreases values.len() - from,
{
    if from < values.len() {
        let key = json_order::json_text(values[from]);
        if seen.contains(key) {
            lemma_unique(values, from + 1, seen, done);
        } else {
            let more = done.push(values[from]);
            let known = seen.insert(key);
            assert forall|text: Seq<char>| #[trigger] known.contains(text) <==> has_text(
                more,
                text,
            ) by {
                if known.contains(text) {
                    if text == key {
                        assert(json_order::json_text(more[done.len() as int]) == text);
                    } else {
                        assert(has_text(done, text));
                        let k = choose|k: int|
                            0 <= k < done.len() && json_order::json_text(#[trigger] done[k]) == text;
                        assert(json_order::json_text(more[k]) == text);
                    }
                }
                if has_text(more, text) {
                    let k = choose|k: int|
                        0 <= k < more.len() && json_order::json_text(#[trigger] more[k]) == text;
                    if k < done.len() {
                        assert(json_order::json_text(done[k]) == text);
                        assert(has_text(done, text));
                        assert(seen.contains(text));
                    }
                }
            }
            assert forall|j: int, k: int| 0 <= j < k < more.len() implies json_order::json_text(
                #[trigger] more[j],
            ) != json_order::json_text(#[trigger] more[k]) by {
                assert(more[j] == done[j]);
                assert(has_text(done, json_order::json_text(done[j])));
                assert(seen.contains(json_order::json_text(done[j])));
                if k < done.len() {
                    assert(more[k] == done[k]);
                }
            }
            assert forall|k: int| 0 <= k < more.len() implies values.contains(#[trigger] more[k]) by {
                if k < done.len() {
                    assert(more[k] == done[k]);
                }
            }
            lemma_unique(values, from + 1, known, more);
        }
    }
}

/// A distinct aggregate takes every value once: none of its inputs is there twice, and
/// each value that it would else take is.
pub proof fn lemma_distinct_inputs(
    shape: ShapeView,
    sources: ValueSources,
    rows: Seq<RowView>,
    func: AggregateFunc,
    arg: AggregateArgView,
    hydrate: bool,
)
    requires
        aggregate::inputs(shape, sources, rows, func, arg, true, hydrate) is Ok,
    ensures
        aggregate::inputs(shape, sources, rows, func, arg, false, hydrate) is Ok,
        ({
            let all = aggregate::inputs(shape, sources, rows, func, arg, false, hydrate)->Ok_0;
            let once = aggregate::inputs(shape, sources, rows, func, arg, true, hydrate)->Ok_0;
            &&& forall|k: int| 0 <= k < once.len() ==> all.contains(#[trigger] once[k])
            &&& texts_differ(once)
            &&& forall|i: int|
                0 <= i < all.len() ==> has_text(once, json_order::json_text(#[trigger] all[i]))
        }),
{
    let all = aggregate::inputs(shape, sources, rows, func, arg, false, hydrate)->Ok_0;
    lemma_unique(all, 0, Set::empty(), Seq::empty());
}

// ---------------------------------------------------------------------------
// Groups
// ---------------------------------------------------------------------------

/// What rows are grouped by: the text of their values, where aggregates count as null.
pub open spec fn group_key(shape: ShapeView, sources: ValueSources, row: RowView) -> Seq<char> {
    filter::key_text(slots::row_values(shape, sources, row, shape.slots, false)->Ok_0)
}

/// All rows of groups, group by group.
pub open spec fn rows_of(groups: Seq<GroupView>) -> Seq<RowView>
    decreases groups.len(),
{
    if groups.len() == 0 {
        Seq::empty()
    } else {
        rows_of(groups.drop_last()) + groups.last().rows
    }
}

proof fn lemma_group_from(groups: Seq<GroupView>, key: Seq<char>, from: int)
    requires
        0 <= from,
    ensures
        match aggregate::group_from(groups, key, from) {
            Some(at) => from <= at < groups.len() && groups[at].key == key,
            None => forall|i: int| from <= i < groups.len() ==> (#[trigger] groups[i]).key != key,
        },
    decreases groups.len() - from,
{
    if from < groups.len() && groups[from].key != key {
        lemma_group_from(groups, key, from + 1);
    }
}

proof fn lemma_rows_of_update(groups: Seq<GroupView>, at: int, row: RowView)
    requires
        0 <= at < groups.len(),
    ensures
        rows_of(
            groups.update(
                at,
                GroupView { key: groups[at].key, rows: groups[at].rows.push(row) },
            ),
        ).to_multiset() == rows_of(groups).push(row).to_multiset(),
    decreases groups.len(),
{
    broadcast use vstd::seq_lib::group_to_multiset_ensures;
    broadcast use vstd::multiset::group_multiset_properties;

    let more = groups.update(
        at,
        GroupView { key: groups[at].key, rows: groups[at].rows.push(row) },
    );
    let init = groups.drop_last();
    let last = groups.last().rows;
    vstd::seq_lib::lemma_multiset_commutative(rows_of(init), last);
    if at == groups.len() - 1 {
        assert(more.drop_last() =~= init);
        assert(rows_of(more) =~= rows_of(groups).push(row));
    } else {
        assert(more.drop_last() =~= init.update(
            at,
            GroupView { key: init[at].key, rows: init[at].rows.push(row) },
        ));
        lemma_rows_of_update(init, at, row);
        vstd::seq_lib::lemma_multiset_commutative(rows_of(more.drop_last()), last);
        assert(rows_of(more).to_multiset() =~= rows_of(groups).push(row).to_multiset());
    }
}

/// Whether groups are those of rows: each holds rows of its own key alone, no key is
/// there twice, and all rows are there.
pub open spec fn are_groups(
    shape: ShapeView,
    sources: ValueSources,
    rows: Seq<RowView>,
    groups: Seq<GroupView>,
) -> bool {
    &&& forall|g: int, i: int|
        0 <= g < groups.len() && 0 <= i < groups[g].rows.len() ==> group_key(
            shape,
            sources,
            #[trigger] groups[g].rows[i],
        ) == groups[g].key
    &&& forall|g: int, h: int|
        0 <= g < h < groups.len() ==> (#[trigger] groups[g]).key != (#[trigger] groups[h]).key
    &&& rows_of(groups).to_multiset() == rows.to_multiset()
}

proof fn lemma_grouped(
    shape: ShapeView,
    sources: ValueSources,
    rows: Seq<RowView>,
    from: int,
    groups: Seq<GroupView>,
)
    requires
        0 <= from <= rows.len(),
        aggregate::grouped_from(shape, sources, rows, from, groups) is Ok,
        are_groups(shape, sources, rows.take(from), groups),
    ensures
        ({
            let found = aggregate::grouped_from(shape, sources, rows, from, groups)->Ok_0;
            &&& are_groups(shape, sources, rows, found)
            &&& found.len() >= groups.len()
            &&& forall|g: int|
                groups.len() <= g < found.len() ==> (#[trigger] found[g]).rows.len() > 0
            &&& forall|g: int|
                0 <= g < groups.len() ==> (#[trigger] found[g]).key == groups[g].key
                    && found[g].rows.len() >= groups[g].rows.len()
        }),
    decreases rows.len() - from,
{
    broadcast use vstd::seq_lib::group_to_multiset_ensures;

    if from < rows.len() {
        let row = rows[from];
        let key = group_key(shape, sources, row);
        let more = aggregate::with_row(groups, key, row);
        lemma_group_from(groups, key, 0);
        assert(rows.take(from + 1) =~= rows.take(from).push(row));
        match aggregate::group_from(groups, key, 0) {
            Some(at) => {
                lemma_rows_of_update(groups, at, row);
                assert forall|g: int, i: int|
                    0 <= g < more.len() && 0 <= i < more[g].rows.len() implies group_key(
                    shape,
                    sources,
                    #[trigger] more[g].rows[i],
                ) == more[g].key by {
                    if g != at || i < groups[at].rows.len() {
                        assert(more[g].rows[i] == groups[g].rows[i]);
                    }
                }
            },
            None => {
                assert(more.drop_last() =~= groups);
                assert(rows_of(more) =~= rows_of(groups).push(row));
                assert forall|g: int, i: int|
                    0 <= g < more.len() && 0 <= i < more[g].rows.len() implies group_key(
                    shape,
                    sources,
                    #[trigger] more[g].rows[i],
                ) == more[g].key by {
                    if g < groups.len() {
                        assert(more[g].rows[i] == groups[g].rows[i]);
                    }
                }
            },
        }
        assert(rows_of(more).to_multiset() =~= rows.take(from + 1).to_multiset());
        lemma_grouped(shape, sources, rows, from + 1, more);
    } else {
        assert(rows.take(from) =~= rows);
    }
}

/// Rows are in one group exactly where their values are the same, and every row is in
/// one; a read of aggregates alone has one group, also without rows, and else no group
/// is empty.
pub proof fn lemma_groups(shape: ShapeView, sources: ValueSources, rows: Seq<RowView>)
    requires
        aggregate::grouped(shape, sources, rows) is Ok,
    ensures
        ({
            let groups = aggregate::grouped(shape, sources, rows)->Ok_0;
            let alone = forall|i: int|
                0 <= i < shape.slots.len() ==> (#[trigger] shape.slots[i]) is Aggregate;
            &&& are_groups(shape, sources, rows, groups)
            &&& alone ==> groups.len() > 0
            &&& !alone ==> forall|g: int|
                0 <= g < groups.len() ==> (#[trigger] groups[g]).rows.len() > 0
        }),
{
    broadcast use vstd::seq_lib::group_to_multiset_ensures;

    let first = aggregate::first_groups(shape.slots);
    assert(rows.take(0) =~= Seq::<RowView>::empty());
    reveal_with_fuel(rows_of, 2);
    assert(rows_of(first) =~= Seq::<RowView>::empty());
    lemma_grouped(shape, sources, rows, 0, first);
}

proof fn lemma_aggregates_are_null(
    shape: ShapeView,
    sources: ValueSources,
    row: RowView,
    slots: Seq<ReturnSlotView>,
    from: int,
    done: Seq<JsonView>,
)
    requires
        forall|i: int| 0 <= i < slots.len() ==> (#[trigger] slots[i]) is Aggregate,
        0 <= from <= slots.len(),
        done == Seq::new(from as nat, |i: int| JsonView::Null),
    ensures
        slots::values_from(shape, sources, row, slots, false, from, done) == Ok::<
            _,
            GraphErrorView,
        >(Seq::new(slots.len(), |i: int| JsonView::Null)),
    decreases slots.len() - from,
{
    if from < slots.len() {
        assert(slots[from] is Aggregate);
        assert(done.push(JsonView::Null) =~= Seq::new((from + 1) as nat, |i: int| JsonView::Null));
        lemma_aggregates_are_null(
            shape,
            sources,
            row,
            slots,
            from + 1,
            done.push(JsonView::Null),
        );
    }
}

/// A read of aggregates alone has exactly one group.
pub proof fn lemma_aggregates_alone_make_one_group(
    shape: ShapeView,
    sources: ValueSources,
    rows: Seq<RowView>,
)
    requires
        forall|i: int| 0 <= i < shape.slots.len() ==> (#[trigger] shape.slots[i]) is Aggregate,
    ensures
        aggregate::grouped(shape, sources, rows) matches Ok(groups) && groups.len() == 1
            && groups[0].rows == rows,
{
    let first = aggregate::first_groups(shape.slots);
    assert(rows.take(0) =~= Seq::<RowView>::empty());
    lemma_one_group(shape, sources, rows, 0, first);
}

proof fn lemma_one_group(
    shape: ShapeView,
    sources: ValueSources,
    rows: Seq<RowView>,
    from: int,
    groups: Seq<GroupView>,
)
    requires
        forall|i: int| 0 <= i < shape.slots.len() ==> (#[trigger] shape.slots[i]) is Aggregate,
        0 <= from <= rows.len(),
        groups.len() == 1,
        groups[0].rows == rows.take(from),
        groups[0].key == filter::key_text(Seq::new(shape.slots.len(), |i: int| JsonView::Null)),
    ensures
        aggregate::grouped_from(shape, sources, rows, from, groups) matches Ok(found)
            && found.len() == 1 && found[0].rows == rows,
    decreases rows.len() - from,
{
    if from < rows.len() {
        assert(Seq::<JsonView>::empty() =~= Seq::new(0, |i: int| JsonView::Null));
        lemma_aggregates_are_null(shape, sources, rows[from], shape.slots, 0, Seq::empty());
        let nulls = Seq::new(shape.slots.len(), |i: int| JsonView::Null);
        assert(slots::row_values(shape, sources, rows[from], shape.slots, false) == Ok::<
            _,
            GraphErrorView,
        >(nulls));
        let more = aggregate::with_row(groups, filter::key_text(nulls), rows[from]);
        assert(rows.take(from + 1) =~= rows.take(from).push(rows[from]));
        lemma_one_group(shape, sources, rows, from + 1, more);
    } else {
        assert(rows.take(from) =~= rows);
    }
}

// ---------------------------------------------------------------------------
// Values of groups
// ---------------------------------------------------------------------------

/// How many of the first `count` slots are sums or means.
pub open spec fn sums_before(slots: Seq<ReturnSlotView>, count: int) -> nat
    decreases count,
{
    if count <= 0 {
        0
    } else {
        sums_before(slots, count - 1) + (match slots[count - 1] {
            ReturnSlotView::Aggregate { func, .. } => if func is Sum || func is Avg {
                1nat
            } else {
                0
            },
            _ => 0,
        })
    }
}

/// Whether a value is that of a slot for a group: an aggregate of the group's inputs,
/// or what the slot is for the first row. The sums and means of the group are given in
/// order, from `next` on.
pub open spec fn is_group_value(
    shape: ShapeView,
    sources: ValueSources,
    rows: Seq<RowView>,
    hydrate: bool,
    sums: Seq<JsonView>,
    next: nat,
    i: int,
    value: JsonView,
) -> bool {
    match shape.slots[i] {
        ReturnSlotView::Aggregate { func, arg, distinct, .. } => aggregate::inputs(
            shape,
            sources,
            rows,
            func,
            arg,
            distinct,
            hydrate,
        ) matches Ok(inputs) && (if func is Sum || func is Avg {
            let at = next + sums_before(shape.slots, i);
            if inputs.len() > 0 && at < sums.len() {
                value == sums[at as int]
            } else {
                value is Null
            }
        } else {
            value == aggregate::aggregate_value(func, inputs, None)
        }),
        slot => if rows.len() == 0 {
            value is Null
        } else {
            slots::slot_value(shape, sources, rows[0], slot, hydrate) == Ok::<_, GraphErrorView>(
                value,
            )
        },
    }
}

proof fn lemma_group_values(
    shape: ShapeView,
    sources: ValueSources,
    rows: Seq<RowView>,
    hydrate: bool,
    sums: Seq<JsonView>,
    start: nat,
    from: int,
    next: nat,
    done: Seq<JsonView>,
)
    requires
        0 <= from <= shape.slots.len(),
        done.len() == from,
        next == start + sums_before(shape.slots, from),
        aggregate::group_values_from(shape, sources, rows, hydrate, sums, from, next, done) is Ok,
        forall|i: int|
            0 <= i < from ==> is_group_value(
                shape,
                sources,
                rows,
                hydrate,
                sums,
                start,
                i,
                #[trigger] done[i],
            ),
    ensures
        ({
            let found = aggregate::group_values_from(
                shape,
                sources,
                rows,
                hydrate,
                sums,
                from,
                next,
                done,
            )->Ok_0;
            &&& found.0.len() == shape.slots.len()
            &&& found.1 == start + sums_before(shape.slots, shape.slots.len() as int)
            &&& forall|i: int|
                0 <= i < shape.slots.len() ==> is_group_value(
                    shape,
                    sources,
                    rows,
                    hydrate,
                    sums,
                    start,
                    i,
                    #[trigger] found.0[i],
                )
        }),
    decreases shape.slots.len() - from,
{
    if from < shape.slots.len() {
        let (value, later): (JsonView, nat) = match shape.slots[from] {
            ReturnSlotView::Aggregate { func, arg, distinct, .. } => (
                aggregate::aggregate_value(
                    func,
                    aggregate::inputs(shape, sources, rows, func, arg, distinct, hydrate)->Ok_0,
                    aggregate::item_at(sums, next),
                ),
                if aggregate::is_sum(func) {
                    next + 1
                } else {
                    next
                },
            ),
            slot => (
                if rows.len() == 0 {
                    JsonView::Null
                } else {
                    slots::slot_value(shape, sources, rows[0], slot, hydrate)->Ok_0
                },
                next,
            ),
        };
        let more = done.push(value);
        assert(is_group_value(shape, sources, rows, hydrate, sums, start, from, value));
        assert forall|i: int| 0 <= i < from + 1 implies is_group_value(
            shape,
            sources,
            rows,
            hydrate,
            sums,
            start,
            i,
            #[trigger] more[i],
        ) by {
            if i < from {
                assert(more[i] == done[i]);
            }
        }
        lemma_group_values(
            shape,
            sources,
            rows,
            hydrate,
            sums,
            start,
            from + 1,
            later,
            more,
        );
    }
}

/// A group has one value for each slot: an aggregate of its inputs, or the value of the
/// slot for its first row.
pub proof fn lemma_values_of_group(
    shape: ShapeView,
    sources: ValueSources,
    rows: Seq<RowView>,
    hydrate: bool,
    sums: Seq<JsonView>,
    next: nat,
)
    requires
        aggregate::group_values_from(
            shape,
            sources,
            rows,
            hydrate,
            sums,
            0,
            next,
            Seq::empty(),
        ) is Ok,
    ensures
        ({
            let found = aggregate::group_values_from(
                shape,
                sources,
                rows,
                hydrate,
                sums,
                0,
                next,
                Seq::empty(),
            )->Ok_0;
            &&& found.0.len() == shape.slots.len()
            &&& found.1 == next + sums_before(shape.slots, shape.slots.len() as int)
            &&& forall|i: int|
                0 <= i < shape.slots.len() ==> is_group_value(
                    shape,
                    sources,
                    rows,
                    hydrate,
                    sums,
                    next,
                    i,
                    #[trigger] found.0[i],
                )
        }),
{
    lemma_group_values(shape, sources, rows, hydrate, sums, next, 0, next, Seq::empty());
}

/// Whether an item is the input of slot `i` for a group.
pub open spec fn is_sum_input(
    shape: ShapeView,
    sources: ValueSources,
    rows: Seq<RowView>,
    hydrate: bool,
    i: int,
    input: SumInputView,
) -> bool {
    shape.slots[i] matches ReturnSlotView::Aggregate { func, arg, distinct, .. } ==> {
        &&& input.average <==> func is Avg
        &&& aggregate::inputs(shape, sources, rows, func, arg, distinct, hydrate) == Ok::<
            _,
            GraphErrorView,
        >(input.values)
    }
}

/// Whether a slot is a sum or a mean.
pub open spec fn sums_up(slot: ReturnSlotView) -> bool {
    slot matches ReturnSlotView::Aggregate { func, .. } && (func is Sum || func is Avg)
}

/// Whether the input of slot `i` stands in its place among inputs, from `start` on.
pub open spec fn sum_stands(
    shape: ShapeView,
    sources: ValueSources,
    rows: Seq<RowView>,
    hydrate: bool,
    start: nat,
    i: int,
    inputs: Seq<SumInputView>,
) -> bool {
    let at = start + sums_before(shape.slots, i);
    sums_up(shape.slots[i]) ==> at < inputs.len() && is_sum_input(
        shape,
        sources,
        rows,
        hydrate,
        i,
        inputs[at as int],
    )
}

proof fn lemma_group_sums(
    shape: ShapeView,
    sources: ValueSources,
    rows: Seq<RowView>,
    hydrate: bool,
    start: nat,
    from: int,
    done: Seq<SumInputView>,
)
    requires
        0 <= from <= shape.slots.len(),
        done.len() == start + sums_before(shape.slots, from),
        aggregate::group_sums_from(shape, sources, rows, hydrate, from, done) is Ok,
        forall|i: int|
            0 <= i < from ==> #[trigger] sum_stands(shape, sources, rows, hydrate, start, i, done),
    ensures
        ({
            let found = aggregate::group_sums_from(
                shape,
                sources,
                rows,
                hydrate,
                from,
                done,
            )->Ok_0;
            &&& found.len() == start + sums_before(shape.slots, shape.slots.len() as int)
            &&& found.len() >= done.len()
            &&& forall|k: int| 0 <= k < done.len() ==> found[k] == done[k]
            &&& forall|i: int|
                0 <= i < shape.slots.len() ==> #[trigger] sum_stands(
                    shape,
                    sources,
                    rows,
                    hydrate,
                    start,
                    i,
                    found,
                )
        }),
    decreases shape.slots.len() - from,
{
    if from < shape.slots.len() {
        if sums_up(shape.slots[from]) {
            match shape.slots[from] {
                ReturnSlotView::Aggregate { func, arg, distinct, .. } => {
                    let values = aggregate::inputs(
                        shape,
                        sources,
                        rows,
                        func,
                        arg,
                        distinct,
                        hydrate,
                    )->Ok_0;
                    let more = done.push(SumInputView { average: func is Avg, values });
                    assert forall|i: int| 0 <= i < from + 1 implies #[trigger] sum_stands(
                        shape,
                        sources,
                        rows,
                        hydrate,
                        start,
                        i,
                        more,
                    ) by {
                        if i < from {
                            assert(sum_stands(shape, sources, rows, hydrate, start, i, done));
                        }
                    }
                    lemma_group_sums(shape, sources, rows, hydrate, start, from + 1, more);
                    let found = aggregate::group_sums_from(
                        shape,
                        sources,
                        rows,
                        hydrate,
                        from + 1,
                        more,
                    )->Ok_0;
                    assert forall|k: int| 0 <= k < done.len() implies found[k] == done[k] by {
                        assert(found[k] == more[k]);
                    }
                },
                _ => {},
            }
        } else {
            assert(sum_stands(shape, sources, rows, hydrate, start, from, done));
            lemma_group_sums(shape, sources, rows, hydrate, start, from + 1, done);
        }
    }
}

/// The inputs of the sums and means of a group are those of its slots, in their order:
/// each stands where the value of its slot is looked for.
pub proof fn lemma_sum_inputs_of_group(
    shape: ShapeView,
    sources: ValueSources,
    rows: Seq<RowView>,
    hydrate: bool,
    done: Seq<SumInputView>,
)
    requires
        aggregate::group_sums_from(shape, sources, rows, hydrate, 0, done) is Ok,
    ensures
        ({
            let found = aggregate::group_sums_from(shape, sources, rows, hydrate, 0, done)->Ok_0;
            &&& found.len() == done.len() + sums_before(shape.slots, shape.slots.len() as int)
            &&& forall|k: int| 0 <= k < done.len() ==> found[k] == done[k]
            &&& forall|i: int|
                0 <= i < shape.slots.len() ==> #[trigger] sum_stands(
                    shape,
                    sources,
                    rows,
                    hydrate,
                    done.len(),
                    i,
                    found,
                )
        }),
{
    lemma_group_sums(shape, sources, rows, hydrate, done.len(), 0, done);
}

} // verus!
