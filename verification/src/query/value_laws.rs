//! What the values of reads are.
use vstd::prelude::*;

use crate::query::evaluate::ValueSources;
use crate::query::filter;
use crate::query::json::JsonView;
use crate::query::json_order;
use crate::query::logical_plan::SortBindingView;
use crate::query::rows::RowView;
use crate::query::slots::ShapeView;
use crate::query::value::{self, OutputView};

verus! {

/// A read never returns more rows than its limit.
pub proof fn lemma_projection_within_limit(
    shape: ShapeView,
    sources: ValueSources,
    rows: Seq<RowView>,
    hydrate: bool,
    sums: Seq<JsonView>,
)
    requires
        value::projected(shape, sources, rows, hydrate, sums) is Ok,
    ensures
        shape.limit matches Some(limit) ==> value::projected(
            shape,
            sources,
            rows,
            hydrate,
            sums,
        )->Ok_0.len() <= limit,
{
}

// ---------------------------------------------------------------------------
// Order
// ---------------------------------------------------------------------------

/// Swapping two outputs flips their order.
pub proof fn lemma_output_order_flips(
    order_by: Seq<SortBindingView>,
    a: OutputView,
    b: OutputView,
    from: int,
)
    requires
        0 <= from,
    ensures
        value::output_order(order_by, b, a, from) == value::output_order(
            order_by,
            a,
            b,
            from,
        ).flipped(),
    decreases order_by.len() - from,
{
    if !(from >= order_by.len() || from >= a.sort.len() || from >= b.sort.len()) {
        json_order::lemma_total_order_flips(a.sort[from], b.sort[from]);
        lemma_output_order_flips(order_by, a, b, from + 1);
    }
}

/// Whether output `i` does not come before the one that stands before it.
pub open spec fn follows(order_by: Seq<SortBindingView>, outputs: Seq<OutputView>, i: int) -> bool {
    !(value::output_order(order_by, outputs[i], outputs[i - 1], 0) is Less)
}

/// Whether no output comes before the one that stands before it.
pub open spec fn in_order(order_by: Seq<SortBindingView>, outputs: Seq<OutputView>) -> bool {
    forall|i: int| 0 < i < outputs.len() ==> #[trigger] follows(order_by, outputs, i)
}

proof fn lemma_output_place(
    order_by: Seq<SortBindingView>,
    sorted: Seq<OutputView>,
    output: OutputView,
    count: nat,
)
    requires
        count <= sorted.len(),
    ensures
        ({
            let at = value::output_place(order_by, sorted, output, count);
            &&& at <= count
            &&& at > 0 ==> !(value::output_order(order_by, output, sorted[at - 1], 0) is Less)
            &&& at < count ==> value::output_order(order_by, output, sorted[at as int], 0) is Less
        }),
    decreases count,
{
    if count > 0 && value::output_order(order_by, output, sorted[count - 1], 0) is Less {
        lemma_output_place(order_by, sorted, output, (count - 1) as nat);
    }
}

proof fn lemma_insert_keeps_order(
    order_by: Seq<SortBindingView>,
    sorted: Seq<OutputView>,
    output: OutputView,
)
    requires
        in_order(order_by, sorted),
    ensures
        in_order(
            order_by,
            sorted.insert(
                value::output_place(order_by, sorted, output, sorted.len()) as int,
                output,
            ),
        ),
{
    lemma_output_place(order_by, sorted, output, sorted.len());
    let at = value::output_place(order_by, sorted, output, sorted.len()) as int;
    let more = sorted.insert(at, output);
    assert forall|i: int| 0 < i < more.len() implies #[trigger] follows(order_by, more, i) by {
        if i < at {
            assert(follows(order_by, sorted, i));
            assert(more[i] == sorted[i]);
            assert(more[i - 1] == sorted[i - 1]);
        } else if i == at {
            assert(more[i - 1] == sorted[at - 1]);
        } else if i == at + 1 {
            assert(more[i] == sorted[at]);
            lemma_output_order_flips(order_by, output, sorted[at], 0);
        } else {
            assert(follows(order_by, sorted, i - 1));
            assert(more[i] == sorted[i - 1]);
            assert(more[i - 1] == sorted[i - 2]);
        }
    }
}

/// Sorting returns the same outputs, in order.
pub proof fn lemma_sorting(
    order_by: Seq<SortBindingView>,
    outputs: Seq<OutputView>,
    count: nat,
)
    requires
        count <= outputs.len(),
    ensures
        in_order(order_by, value::sorted_outputs(order_by, outputs, count)),
        value::sorted_outputs(order_by, outputs, count).to_multiset() == outputs.take(
            count as int,
        ).to_multiset(),
    decreases count,
{
    if count == 0 {
        assert(outputs.take(0) =~= Seq::<OutputView>::empty());
    } else {
        lemma_sorting(order_by, outputs, (count - 1) as nat);
        let sorted = value::sorted_outputs(order_by, outputs, (count - 1) as nat);
        lemma_insert_keeps_order(order_by, sorted, outputs[count - 1]);
        lemma_output_place(order_by, sorted, outputs[count - 1], sorted.len());
        let at = value::output_place(order_by, sorted, outputs[count - 1], sorted.len()) as int;
        vstd::seq_lib::to_multiset_insert(sorted, at, outputs[count - 1]);
        vstd::seq_lib::to_multiset_build(outputs.take(count - 1), outputs[count - 1]);
        assert(outputs.take(count as int) =~= outputs.take(count - 1).push(outputs[count - 1]));
    }
}

// ---------------------------------------------------------------------------
// Deduplication
// ---------------------------------------------------------------------------

/// Whether no two outputs have the same values.
pub open spec fn all_differ(outputs: Seq<OutputView>) -> bool {
    forall|i: int, j: int|
        0 <= i < j < outputs.len() ==> filter::key_text((#[trigger] outputs[i]).values)
            != filter::key_text((#[trigger] outputs[j]).values)
}

proof fn lemma_distinct_from(
    outputs: Seq<OutputView>,
    from: int,
    seen: Set<Seq<char>>,
    done: Seq<OutputView>,
)
    requires
        0 <= from,
        all_differ(done),
        forall|i: int|
            0 <= i < done.len() ==> seen.contains(filter::key_text((#[trigger] done[i]).values)),
        value::distinct_from(outputs, from, seen, done) is Ok,
    ensures
        all_differ(value::distinct_from(outputs, from, seen, done)->Ok_0),
    decreases outputs.len() - from,
{
    if from < outputs.len() {
        let key = filter::key_text(outputs[from].values);
        if seen.contains(key) {
            lemma_distinct_from(outputs, from + 1, seen, done);
        } else {
            let more = done.push(outputs[from]);
            assert forall|i: int, j: int| 0 <= i < j < more.len() implies filter::key_text(
                (#[trigger] more[i]).values,
            ) != filter::key_text((#[trigger] more[j]).values) by {
                assert(more[i] == done[i]);
                if j < done.len() {
                    assert(more[j] == done[j]);
                }
            }
            assert forall|i: int| 0 <= i < more.len() implies seen.insert(key).contains(
                filter::key_text((#[trigger] more[i]).values),
            ) by {
                if i < done.len() {
                    assert(more[i] == done[i]);
                }
            }
            lemma_distinct_from(outputs, from + 1, seen.insert(key), more);
        }
    }
}

/// A read that returns distinct rows returns no two with the same values.
pub proof fn lemma_distinct_outputs_differ(outputs: Seq<OutputView>)
    requires
        value::distinct_from(outputs, 0, Set::empty(), Seq::empty()) is Ok,
    ensures
        all_differ(value::distinct_from(outputs, 0, Set::empty(), Seq::empty())->Ok_0),
{
    lemma_distinct_from(outputs, 0, Set::empty(), Seq::empty());
}

} // verus!
