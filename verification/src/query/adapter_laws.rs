//! What typed read patterns mean.
use vstd::prelude::*;

use crate::gql::ast::{
    self, AggregateArg, Direction, Query, ReturnExpr, ReturnItem, SortItem, SortKey,
};
use crate::query::sqlpgq_adapter::{
    self, SqlPgqAggregateArg, SqlPgqAggregateFunc, SqlPgqDirection, SqlPgqRead, SqlPgqReturnExpr,
    SqlPgqReturnItem, SqlPgqSortItem, SqlPgqSortKey,
};

verus! {

/// A typed read is refused exactly where it is optional without a relationship, returns
/// nothing, or takes no step or fewer steps at most than at least.
pub proof fn lemma_refused_typed_reads(read: SqlPgqRead)
    ensures
        sqlpgq_adapter::read_error(read) is Some <==> {
            ||| read.optional && read.relationship is None
            ||| read.returns@.len() == 0
            ||| read.relationship matches Some((rel, _)) && rel.hops matches Some((min, max)) && (
            min < 1 || min > max)
        },
{
}

/// Whether directions are the same.
pub open spec fn same_direction(written: Direction, typed: SqlPgqDirection) -> bool {
    &&& written == Direction::Out <==> typed == SqlPgqDirection::Out
    &&& written == Direction::In <==> typed == SqlPgqDirection::In
    &&& written == Direction::Undirected <==> typed == SqlPgqDirection::Undirected
}

/// Whether aggregates are the same.
pub open spec fn same_aggregate(written: ast::AggregateFunc, typed: SqlPgqAggregateFunc) -> bool {
    &&& written == ast::AggregateFunc::Count <==> typed == SqlPgqAggregateFunc::Count
    &&& written == ast::AggregateFunc::Sum <==> typed == SqlPgqAggregateFunc::Sum
    &&& written == ast::AggregateFunc::Avg <==> typed == SqlPgqAggregateFunc::Avg
    &&& written == ast::AggregateFunc::Min <==> typed == SqlPgqAggregateFunc::Min
    &&& written == ast::AggregateFunc::Max <==> typed == SqlPgqAggregateFunc::Max
    &&& written == ast::AggregateFunc::Collect <==> typed == SqlPgqAggregateFunc::Collect
}

/// Whether the arguments of aggregates are the same.
pub open spec fn same_argument(written: AggregateArg, typed: SqlPgqAggregateArg) -> bool {
    match (written, typed) {
        (AggregateArg::All { .. }, SqlPgqAggregateArg::All) => true,
        (AggregateArg::Var { var, .. }, SqlPgqAggregateArg::Var(name)) => var.text@ == name@,
        (
            AggregateArg::Property { var, property, .. },
            SqlPgqAggregateArg::Property { var: name, property: key },
        ) => var.text@ == name@ && property.text@ == key@,
        _ => false,
    }
}

/// Whether items return the same under the same name.
pub open spec fn same_item(written: ReturnItem, typed: SqlPgqReturnItem) -> bool {
    &&& written.alias is Some <==> typed.alias is Some
    &&& written.alias is Some ==> written.alias->0.text@ == typed.alias->0@
    &&& match (written.expr, typed.expr) {
        (ReturnExpr::Var { var, .. }, SqlPgqReturnExpr::Var(name)) => var.text@ == name@,
        (
            ReturnExpr::Property { var, property, .. },
            SqlPgqReturnExpr::Property { var: name, property: key },
        ) => var.text@ == name@ && property.text@ == key@,
        (
            ReturnExpr::Func { name, args, .. },
            SqlPgqReturnExpr::PathFunction { name: func, arg },
        ) => name.text@ == func@ && args@.len() == 1 && args@[0].text@ == arg@,
        (
            ReturnExpr::Aggregate { func, distinct, arg, .. },
            SqlPgqReturnExpr::Aggregate { func: typed_func, distinct: apart, arg: of },
        ) => same_aggregate(func, typed_func) && distinct == apart && same_argument(arg, of),
        _ => false,
    }
}

/// Whether items sort by the same, the same way round.
pub open spec fn same_sort(written: SortItem, typed: SqlPgqSortItem) -> bool {
    &&& written.desc == typed.desc
    &&& match (written.key, typed.key) {
        (SortKey::Alias { alias, .. }, SqlPgqSortKey::Alias(name)) => alias.text@ == name@,
        (
            SortKey::Property { var, property, .. },
            SqlPgqSortKey::Property { var: name, property: key },
        ) => var.text@ == name@ && property.text@ == key@,
        _ => false,
    }
}

/// A typed read means the query that matches its pattern, in its direction and with its
/// number of steps, without further conditions, and returns, sorts, skips and limits as
/// it does.
pub proof fn lemma_typed_read_is_its_query(query: Query, read: SqlPgqRead)
    requires
        sqlpgq_adapter::is_query_of(query, read),
    ensures
        query.match_.optional == read.optional,
        query.match_.patterns@.len() == 0,
        query.where_ is None,
        query.with_@.len() == 0,
        query.match_.pattern.path_var is None,
        ({
            let start = query.match_.pattern.start;
            &&& start.var is Some && start.var->0.text@ == read.source.var@
            &&& start.label is Some && start.label->0.text@ == read.source.label@
            &&& start.props@.len() == 0
        }),
        read.relationship is None ==> query.match_.pattern.tail@.len() == 0,
        read.relationship matches Some((rel, target)) ==> {
            let tail = query.match_.pattern.tail@;
            &&& tail.len() == 1
            &&& same_direction(tail[0].0.direction, rel.direction)
            &&& tail[0].0.rel_type is Some && tail[0].0.rel_type->0.text@ == rel.rel_type@
            &&& tail[0].0.var is Some <==> rel.var is Some
            &&& tail[0].0.var is Some ==> tail[0].0.var->0.text@ == rel.var->0@
            &&& tail[0].0.var_len is Some <==> rel.hops is Some
            &&& rel.hops matches Some((min, max)) ==> tail[0].0.var_len->0.min == min
                && tail[0].0.var_len->0.max == max
            &&& tail[0].0.props@.len() == 0
            &&& tail[0].1.var is Some && tail[0].1.var->0.text@ == target.var@
            &&& tail[0].1.label is Some && tail[0].1.label->0.text@ == target.label@
            &&& tail[0].1.props@.len() == 0
        },
        query.return_.distinct == read.distinct,
        query.return_.items@.len() == read.returns@.len(),
        forall|i: int|
            0 <= i < read.returns@.len() ==> same_item(
                #[trigger] query.return_.items@[i],
                read.returns@[i],
            ),
        query.order_by@.len() == read.order_by@.len(),
        forall|i: int|
            0 <= i < read.order_by@.len() ==> same_sort(
                #[trigger] query.order_by@[i],
                read.order_by@[i],
            ),
        query.skip == read.skip,
        query.limit == read.limit,
{
    assert forall|i: int| 0 <= i < read.returns@.len() implies same_item(
        #[trigger] query.return_.items@[i],
        read.returns@[i],
    ) by {
        assert(sqlpgq_adapter::is_return_item(query.return_.items@[i], read.returns@[i]));
    }
    assert forall|i: int| 0 <= i < read.order_by@.len() implies same_sort(
        #[trigger] query.order_by@[i],
        read.order_by@[i],
    ) by {
        assert(sqlpgq_adapter::is_sort_item(query.order_by@[i], read.order_by@[i]));
    }
}

} // verus!
