//! Stable explain strings for read-oriented GQL inspection.
use vstd::prelude::*;

use crate::query::physical_plan::{
    self, PhysicalNodeScan, PhysicalNodeScanView, PhysicalPlan, PhysicalPlanView, ReturnSlot,
    ReturnSlotView,
};
use crate::text::{self, concat3, concat4, concat7, decimal_text, owned};
use crate::views;

verus! {

/// The column names of slots, separated by commas.
pub open spec fn column_list(slots: Seq<ReturnSlotView>) -> Seq<char>
    decreases slots.len(),
{
    if slots.len() == 0 {
        Seq::empty()
    } else if slots.len() == 1 {
        physical_plan::slot_name(slots[0])
    } else {
        column_list(slots.drop_last()) + ", "@ + physical_plan::slot_name(slots.last())
    }
}

fn list_columns(slots: &Vec<ReturnSlot>) -> (list: String)
    ensures
        list@ == column_list(views::views(slots@)),
{
    let mut list: String = owned("");
    let ghost all = views::views(slots@);
    proof {
        reveal_strlit("");
        assert(list@ =~= column_list(all.take(0)));
    }
    for i in 0..slots.len()
        invariant
            all == views::views(slots@),
            list@ == column_list(all.take(i as int)),
    {
        proof {
            assert(all.take(i + 1).drop_last() =~= all.take(i as int));
            assert(all[i as int] == slots@[i as int]@);
        }
        if i == 0 {
            list = owned(slots[i].name());
        } else {
            list = concat3(list.as_str(), ", ", slots[i].name());
        }
    }
    assert(all.take(all.len() as int) =~= all);
    list
}

/// The explanation of a plan.
pub open spec fn plan_text(plan: PhysicalPlanView) -> Seq<char> {
    (if plan.optional {
        "OptionalExpand"@
    } else {
        "Expand"@
    }) + "(source="@ + plan.source_var + ":"@ + plan.source_label + ", rel="@ + plan.rel_type
        + ", hops="@ + text::decimal(plan.hops.min as nat) + ".."@ + text::decimal(
        plan.hops.max as nat,
    ) + ", target="@ + plan.target_var + ":"@ + plan.target_label + ", return=["@ + column_list(
        plan.returns,
    ) + "])"@
}

/// Render a compact physical plan explanation.
pub fn explain(plan: &PhysicalPlan) -> (text: String)
    ensures
        text@ == plan_text(plan@),
{
    let columns: String = list_columns(&plan.returns);
    let op: &str = if plan.optional {
        "OptionalExpand"
    } else {
        "Expand"
    };
    let source: String = concat7(
        op,
        "(source=",
        plan.source_var.as_str(),
        ":",
        plan.source_label.as_str(),
        ", rel=",
        plan.rel_type.as_str(),
    );
    let hops: String = text::concat5(
        source.as_str(),
        ", hops=",
        decimal_text(plan.hops.min as u64).as_str(),
        "..",
        decimal_text(plan.hops.max as u64).as_str(),
    );
    let target: String = text::concat5(
        hops.as_str(),
        ", target=",
        plan.target_var.as_str(),
        ":",
        plan.target_label.as_str(),
    );
    concat4(target.as_str(), ", return=[", columns.as_str(), "])")
}

/// The explanation of a node scan.
pub open spec fn scan_text(plan: PhysicalNodeScanView) -> Seq<char> {
    "NodeScan(node="@ + plan.var + ":"@ + plan.label + ", return=["@ + column_list(plan.returns)
        + "])"@
}

/// Render a compact node-scan plan explanation.
pub fn explain_node_scan(plan: &PhysicalNodeScan) -> (text: String)
    ensures
        text@ == scan_text(plan@),
{
    let columns: String = list_columns(&plan.returns);
    concat7(
        "NodeScan(node=",
        plan.var.as_str(),
        ":",
        plan.label.as_str(),
        ", return=[",
        columns.as_str(),
        "])",
    )
}

} // verus!
