//! What explanations tell of a plan.
use vstd::prelude::*;

use crate::query::explain;
use crate::query::physical_plan::{PhysicalNodeScanView, PhysicalPlanView, ReturnSlotView};
use crate::text;

verus! {

/// Whether a text has a part.
pub open spec fn tells(whole: Seq<char>, part: Seq<char>) -> bool {
    exists|before: Seq<char>, after: Seq<char>| whole == #[trigger] (before + part + after)
}

/// The name of a returned column.
pub open spec fn column(slot: ReturnSlotView) -> Seq<char> {
    match slot {
        ReturnSlotView::Node { name, .. } => name,
        ReturnSlotView::Relationship { name } => name,
        ReturnSlotView::Path { name } => name,
        ReturnSlotView::PathFunction { name, .. } => name,
        ReturnSlotView::Property { name, .. } => name,
        ReturnSlotView::Aggregate { name, .. } => name,
    }
}

proof fn lemma_tells(whole: Seq<char>, before: Seq<char>, part: Seq<char>, after: Seq<char>)
    requires
        whole =~= before + part + after,
    ensures
        tells(whole, part),
{
}

proof fn lemma_within(
    whole: Seq<char>,
    before: Seq<char>,
    middle: Seq<char>,
    after: Seq<char>,
    part: Seq<char>,
)
    requires
        whole == before + middle + after,
        tells(middle, part),
    ensures
        tells(whole, part),
{
    let (b, a) = choose|b: Seq<char>, a: Seq<char>| middle == #[trigger] (b + part + a);
    assert(whole =~= (before + b) + part + (a + after));
}

proof fn lemma_columns(slots: Seq<ReturnSlotView>, i: int)
    requires
        0 <= i < slots.len(),
    ensures
        tells(explain::column_list(slots), column(slots[i])),
    decreases slots.len(),
{
    let list = explain::column_list(slots);
    let none = Seq::<char>::empty();
    if slots.len() == 1 {
        lemma_tells(list, none, column(slots[i]), none);
    } else {
        let init = slots.drop_last();
        let earlier = explain::column_list(init);
        let last = column(slots.last());
        if i < init.len() {
            lemma_columns(init, i);
            assert(init[i] == slots[i]);
            assert(list =~= none + earlier + (", "@ + last));
            lemma_within(list, none, earlier, ", "@ + last, column(slots[i]));
        } else {
            lemma_tells(list, earlier + ", "@, last, none);
        }
    }
}

/// The explanation of a plan says whether matches are optional, and tells its source, its
/// relationship type, its hops, its target and every column.
pub proof fn lemma_plans_are_told(plan: PhysicalPlanView)
    ensures
        ({
            let told = explain::plan_text(plan);
            &&& plan.optional <==> (told.len() > 0 && told[0] == 'O')
            &&& tells(told, "(source="@ + plan.source_var + ":"@ + plan.source_label)
            &&& tells(told, ", rel="@ + plan.rel_type)
            &&& tells(
                told,
                ", hops="@ + text::decimal(plan.hops.min as nat) + ".."@ + text::decimal(
                    plan.hops.max as nat,
                ),
            )
            &&& tells(told, ", target="@ + plan.target_var + ":"@ + plan.target_label)
            &&& forall|i: int|
                0 <= i < plan.returns.len() ==> tells(told, column(#[trigger] plan.returns[i]))
        }),
{
    reveal_strlit("OptionalExpand");
    reveal_strlit("Expand");
    let told = explain::plan_text(plan);
    let op = if plan.optional {
        "OptionalExpand"@
    } else {
        "Expand"@
    };
    let source = "(source="@ + plan.source_var + ":"@ + plan.source_label;
    let rel = ", rel="@ + plan.rel_type;
    let hops = ", hops="@ + text::decimal(plan.hops.min as nat) + ".."@ + text::decimal(
        plan.hops.max as nat,
    );
    let target = ", target="@ + plan.target_var + ":"@ + plan.target_label;
    let columns = explain::column_list(plan.returns);
    let tail = ", return=["@ + columns + "])"@;
    assert(told =~= op + source + rel + hops + target + tail);
    assert(told[0] == op[0]);
    lemma_tells(told, op, source, rel + hops + target + tail);
    lemma_tells(told, op + source, rel, hops + target + tail);
    lemma_tells(told, op + source + rel, hops, target + tail);
    lemma_tells(told, op + source + rel + hops, target, tail);
    assert forall|i: int| 0 <= i < plan.returns.len() implies tells(
        told,
        column(#[trigger] plan.returns[i]),
    ) by {
        lemma_columns(plan.returns, i);
        let before = op + source + rel + hops + target + ", return=["@;
        assert(told =~= before + columns + "])"@);
        lemma_within(told, before, columns, "])"@, column(plan.returns[i]));
    }
}

/// The explanation of a node scan tells its node and every column.
pub proof fn lemma_scans_are_told(plan: PhysicalNodeScanView)
    ensures
        ({
            let told = explain::scan_text(plan);
            &&& tells(told, "NodeScan(node="@ + plan.var + ":"@ + plan.label)
            &&& forall|i: int|
                0 <= i < plan.returns.len() ==> tells(told, column(#[trigger] plan.returns[i]))
        }),
{
    let told = explain::scan_text(plan);
    let node = "NodeScan(node="@ + plan.var + ":"@ + plan.label;
    let columns = explain::column_list(plan.returns);
    lemma_tells(told, Seq::empty(), node, ", return=["@ + columns + "])"@);
    assert forall|i: int| 0 <= i < plan.returns.len() implies tells(
        told,
        column(#[trigger] plan.returns[i]),
    ) by {
        lemma_columns(plan.returns, i);
        let before = node + ", return=["@;
        assert(told =~= before + columns + "])"@);
        lemma_within(told, before, columns, "])"@, column(plan.returns[i]));
    }
}

} // verus!
