//! Binding of wildcard paths.
use vstd::prelude::*;

use crate::gql::ast::{Ident, NodePat, Query, RelPat, ReturnExpr, ReturnItem};
use crate::gql::errors::{self, GqlError, GqlErrorView, GqlResult};
use crate::query::catalog_snapshot::{
    CatalogSnapshot, NodeLabelInfo, NodeLabelInfoView, RelTypeInfo, RelTypeInfoView,
};
use crate::query::logical_plan::{
    BindingSide, LogicalWildcardPathPlan, LogicalWildcardPathPlanView, LogicalWildcardPathSegment,
    LogicalWildcardPathSegmentView, PathFunc, ReturnBinding, ReturnBindingView, TableLabel,
    TableLabelView,
};
use crate::query::names::{self, insert_oid, NameMap, NameSet};
use crate::query::scope::{
    self, bind_path_function, duplicate_return_name, has_return, projection_name, BindingScope,
    ScopeView, ScopedBinding, ScopedBindingView,
};
use crate::query::semantics::{
    self, bind_direction, ident_text, resolve_relationship, validate_row_window,
};
use crate::text::{concat3, same_text};
use crate::views;

verus! {

/// The table that a node of a wildcard path has to be of, where it has a label.
pub open spec fn node_filter<C: CatalogSnapshot>(node: NodePat, catalog: C) -> Result<
    Option<u32>,
    GqlErrorView,
> {
    if node.props@.len() > 0 {
        Err(
            errors::unsupported_error(
                node.span,
                "wildcard path variables cannot bind node properties in this phase"@,
            ),
        )
    } else {
        match node.label {
            None => Ok(None),
            Some(label) => match catalog.label_info(label.text@, label.span) {
                Ok(info) => Ok(Some(info.table_oid)),
                Err(error) => Err(error),
            },
        }
    }
}

/// The table that a node of a wildcard path has to be of, where it has a label.
pub fn bind_wildcard_node_filter<C: CatalogSnapshot>(node: &NodePat, catalog: &C) -> (result:
    GqlResult<Option<u32>>)
    ensures
        match node_filter(*node, *catalog) {
            Ok(filter) => result == Ok::<Option<u32>, GqlError>(filter),
            Err(error) => result matches Err(given) && given@ == error,
        },
{
    if node.props.len() > 0 {
        return Err(
            GqlError::unsupported(
                node.span,
                "wildcard path variables cannot bind node properties in this phase",
            ),
        );
    }
    match &node.label {
        None => Ok(None),
        Some(label) => {
            let info: NodeLabelInfo = catalog.resolve_node_label(
                label.text.as_str(),
                label.span,
            )?;
            Ok(Some(info.table_oid))
        },
    }
}

/// Whether a relationship type is registered.
pub open spec fn has_type(rels: Seq<RelTypeInfoView>, rel_type: Seq<char>) -> bool {
    exists|i: int| 0 <= i < rels.len() && (#[trigger] rels[i]).rel_type == rel_type
}

fn registers_type(rels: &Vec<RelTypeInfo>, rel_type: &str) -> (found: bool)
    ensures
        found == has_type(views::views(rels@), rel_type@),
{
    let ghost all = views::views(rels@);
    for i in 0..rels.len()
        invariant
            all == views::views(rels@),
            forall|j: int| 0 <= j < i ==> (#[trigger] all[j]).rel_type != rel_type@,
    {
        assert(all[i as int] == rels@[i as int]@);
        if same_text(rels[i].rel_type.as_str(), rel_type) {
            assert(all[i as int].rel_type == rel_type@);
            return true;
        }
    }
    false
}

/// The type that a relationship of a wildcard path has to have, where it names
/// one.
pub open spec fn rel_filter<C: CatalogSnapshot>(rel: RelPat, catalog: C) -> Result<
    Option<Seq<char>>,
    GqlErrorView,
> {
    if rel.var_len is Some || rel.props@.len() > 0 {
        Err(
            errors::unsupported_error(
                rel.span,
                "wildcard path variables cannot bind relationship properties or variable-length bounds in this phase"@,
            ),
        )
    } else {
        match rel.rel_type {
            None => Ok(None),
            Some(rel_type) => if has_type(catalog.all_rels(), rel_type.text@) {
                Ok(Some(rel_type.text@))
            } else {
                Err(
                    errors::bind_error(
                        rel_type.span,
                        "unknown relationship type `"@ + rel_type.text@ + "`"@,
                    ),
                )
            },
        }
    }
}

/// The type that a relationship of a wildcard path has to have, where it names
/// one.
pub fn bind_wildcard_relationship_filter<C: CatalogSnapshot>(rel: &RelPat, catalog: &C) -> (result:
    GqlResult<Option<String>>)
    ensures
        match rel_filter(*rel, *catalog) {
            Ok(filter) => result matches Ok(bound) && views::some_view(bound) == filter,
            Err(error) => result matches Err(given) && given@ == error,
        },
{
    if rel.var_len.is_some() || rel.props.len() > 0 {
        return Err(
            GqlError::unsupported(
                rel.span,
                "wildcard path variables cannot bind relationship properties or variable-length bounds in this phase",
            ),
        );
    }
    let rel_type: &Ident = match &rel.rel_type {
        Some(rel_type) => rel_type,
        None => {
            return Ok(None);
        },
    };
    let rels: Vec<RelTypeInfo> = catalog.rel_types();
    if registers_type(&rels, rel_type.text.as_str()) {
        return Ok(Some(rel_type.text.clone()));
    }
    Err(
        GqlError::bind(
            rel_type.span,
            concat3("unknown relationship type `", rel_type.text.as_str(), "`").as_str(),
        ),
    )
}

// ---------------------------------------------------------------------------
// Segments
// ---------------------------------------------------------------------------

/// Why the ends of a segment do not fit its relationship type.
pub open spec fn segment_fit_error<C: CatalogSnapshot>(
    rel: RelPat,
    catalog: C,
    source_filter: Option<u32>,
    target_filter: Option<u32>,
) -> Option<GqlErrorView> {
    match (source_filter, target_filter, rel.rel_type) {
        (Some(source), Some(target), Some(rel_type)) => match semantics::resolved_rel(
            catalog,
            rel.direction,
            rel_type,
            source,
            target,
        ) {
            Err(error) => Some(error),
            Ok(_) => None,
        },
        _ => None,
    }
}

/// What one segment of a wildcard path binds to.
pub open spec fn bound_segment<C: CatalogSnapshot>(
    rel: RelPat,
    target: NodePat,
    catalog: C,
    source_filter: Option<u32>,
    alone: bool,
) -> Result<LogicalWildcardPathSegmentView, GqlErrorView> {
    match node_filter(target, catalog) {
        Err(error) => Err(error),
        Ok(target_table_filter) => match rel_filter(rel, catalog) {
            Err(error) => Err(error),
            Ok(rel_type_filter) => if !alone && rel.var is Some {
                Err(
                    errors::unsupported_error(
                        rel.span,
                        "relationship variables in multi-segment path variables require a later phase"@,
                    ),
                )
            } else {
                match segment_fit_error(rel, catalog, source_filter, target_table_filter) {
                    Some(error) => Err(error),
                    None => Ok(
                        LogicalWildcardPathSegmentView {
                            rel_var: semantics::name_text(rel.var),
                            target_var: semantics::name_text(target.var),
                            direction: semantics::bound_direction(rel.direction),
                            target_table_filter,
                            rel_type_filter,
                        },
                    ),
                }
            },
        },
    }
}

fn bind_segment<C: CatalogSnapshot>(
    rel: &RelPat,
    target: &NodePat,
    catalog: &C,
    source_filter: Option<u32>,
    alone: bool,
) -> (result: GqlResult<LogicalWildcardPathSegment>)
    ensures
        errors::outcome(result) == bound_segment(*rel, *target, *catalog, source_filter, alone),
{
    let target_table_filter: Option<u32> = bind_wildcard_node_filter(target, catalog)?;
    let rel_type_filter: Option<String> = bind_wildcard_relationship_filter(rel, catalog)?;
    if !alone && rel.var.is_some() {
        return Err(
            GqlError::unsupported(
                rel.span,
                "relationship variables in multi-segment path variables require a later phase",
            ),
        );
    }
    match (source_filter, target_table_filter, &rel.rel_type) {
        (Some(source), Some(target), Some(rel_type)) => {
            resolve_relationship(catalog, rel, rel_type, source, target)?;
        },
        _ => {},
    }
    Ok(
        LogicalWildcardPathSegment {
            rel_var: ident_text(&rel.var),
            target_var: ident_text(&target.var),
            direction: bind_direction(rel.direction),
            target_table_filter,
            rel_type_filter,
        },
    )
}

/// The segments of a wildcard path from `from` on.
pub open spec fn segments_from<C: CatalogSnapshot>(
    tail: Seq<(RelPat, NodePat)>,
    from: int,
    catalog: C,
    source_filter: Option<u32>,
    done: Seq<LogicalWildcardPathSegmentView>,
) -> Result<Seq<LogicalWildcardPathSegmentView>, GqlErrorView>
    decreases tail.len() - from,
{
    if from >= tail.len() {
        Ok(done)
    } else {
        match bound_segment(
            tail[from].0,
            tail[from].1,
            catalog,
            source_filter,
            tail.len() == 1,
        ) {
            Err(error) => Err(error),
            Ok(segment) => segments_from(
                tail,
                from + 1,
                catalog,
                segment.target_table_filter,
                done.push(segment),
            ),
        }
    }
}

fn bind_segments<C: CatalogSnapshot>(
    tail: &Vec<(RelPat, NodePat)>,
    catalog: &C,
    source_filter: Option<u32>,
) -> (result: GqlResult<Vec<LogicalWildcardPathSegment>>)
    ensures
        match segments_from(tail@, 0, *catalog, source_filter, Seq::empty()) {
            Ok(segments) => result matches Ok(bound) && views::views(bound@) == segments
                && bound@.len() == tail@.len(),
            Err(error) => result matches Err(given) && given@ == error,
        },
{
    let mut segments: Vec<LogicalWildcardPathSegment> = Vec::new();
    let mut previous: Option<u32> = source_filter;
    assert(views::views(segments@) =~= Seq::<LogicalWildcardPathSegmentView>::empty());
    for i in 0..tail.len()
        invariant
            segments@.len() == i,
            segments_from(tail@, i as int, *catalog, previous, views::views(segments@))
                == segments_from(tail@, 0, *catalog, source_filter, Seq::empty()),
    {
        let segment: LogicalWildcardPathSegment = bind_segment(
            &tail[i].0,
            &tail[i].1,
            catalog,
            previous,
            tail.len() == 1,
        )?;
        previous = segment.target_table_filter;
        let ghost earlier = segments@;
        segments.push(segment);
        proof {
            views::lemma_push(earlier, segment);
        }
    }
    Ok(segments)
}

// ---------------------------------------------------------------------------
// Projections
// ---------------------------------------------------------------------------

/// The scope with an optional variable added.
pub open spec fn with_variable(
    names: ScopeView,
    var: Option<Ident>,
    binding: ScopedBindingView,
) -> Result<ScopeView, GqlErrorView> {
    match var {
        None => Ok(names),
        Some(var) => if names.contains_key(var.text@) {
            Err(scope::duplicate_variable(var.text@, var.span))
        } else {
            Ok(names.insert(var.text@, binding))
        },
    }
}

/// Add an optional variable to a scope.
pub fn insert_wildcard_binding(names: &mut BindingScope, var: &Option<Ident>, binding: ScopedBinding) -> (result:
    GqlResult<()>)
    ensures
        match with_variable(old(names)@, *var, binding@) {
            Ok(next) => result is Ok && final(names)@ == next,
            Err(error) => result matches Err(given) && given@ == error,
        },
{
    match var {
        None => Ok(()),
        Some(var) => {
            if names.insert(var.text.clone(), binding) {
                return Err(
                    GqlError::bind(
                        var.span,
                        concat3(
                            "duplicate variable `",
                            var.text.as_str(),
                            "` in MATCH scope",
                        ).as_str(),
                    ),
                );
            }
            Ok(())
        },
    }
}

/// The scope of a wildcard path with the variables of its tail from `from` on.
pub open spec fn tail_scope(
    tail: Seq<(RelPat, NodePat)>,
    from: int,
    names: ScopeView,
) -> Result<ScopeView, GqlErrorView>
    decreases tail.len() - from,
{
    if from >= tail.len() {
        Ok(names)
    } else {
        match with_variable(
            names,
            tail[from].0.var,
            ScopedBindingView::Relationship { var_len: false },
        ) {
            Err(error) => Err(error),
            Ok(next) => match with_variable(
                next,
                tail[from].1.var,
                ScopedBindingView::Node(BindingSide::PathNode((from + 1) as usize)),
            ) {
                Err(error) => Err(error),
                Ok(next) => tail_scope(tail, from + 1, next),
            },
        }
    }
}

/// The scope of a wildcard path.
pub open spec fn path_scope(
    path_var: Seq<char>,
    source_var: Option<Ident>,
    tail: Seq<(RelPat, NodePat)>,
) -> Result<ScopeView, GqlErrorView> {
    match with_variable(
        Map::<Seq<char>, ScopedBindingView>::empty().insert(path_var, ScopedBindingView::Path),
        source_var,
        ScopedBindingView::Node(BindingSide::PathNode(0)),
    ) {
        Err(error) => Err(error),
        Ok(names) => tail_scope(tail, 0, names),
    }
}

fn bind_path_scope(
    path_var: &str,
    source_var: &Option<Ident>,
    tail: &Vec<(RelPat, NodePat)>,
) -> (result: GqlResult<BindingScope>)
    ensures
        errors::outcome(result) == path_scope(path_var@, *source_var, tail@),
{
    let mut names: BindingScope = NameMap::new();
    names.insert(crate::text::owned(path_var), ScopedBinding::Path);
    insert_wildcard_binding(
        &mut names,
        source_var,
        ScopedBinding::Node(BindingSide::PathNode(0)),
    )?;
    let ghost first = names@;
    for i in 0..tail.len()
        invariant
            path_scope(path_var@, *source_var, tail@) == tail_scope(tail@, 0, first),
            tail_scope(tail@, i as int, names@) == tail_scope(tail@, 0, first),
    {
        insert_wildcard_binding(
            &mut names,
            &tail[i].0.var,
            ScopedBinding::Relationship { var_len: false },
        )?;
        insert_wildcard_binding(
            &mut names,
            &tail[i].1.var,
            ScopedBinding::Node(BindingSide::PathNode(i + 1)),
        )?;
    }
    Ok(names)
}

/// What a `RETURN` item of a wildcard path binds to.
pub open spec fn path_return(item: ReturnItem, names: ScopeView) -> Result<
    ReturnBindingView,
    GqlErrorView,
> {
    match item.expr {
        ReturnExpr::Var { var, span } => if names.contains_key(var.text@) {
            Ok(scope::returned(names[var.text@], scope::item_name(item)))
        } else {
            Err(errors::bind_error(span, "unknown return variable `"@ + var.text@ + "`"@))
        },
        ReturnExpr::Func { name, args, span } => match scope::function_value(
            name,
            args@,
            span,
            names,
        ) {
            Ok(func) => Ok(
                ReturnBindingView::PathFunction { func, name: scope::item_name(item) },
            ),
            Err(error) => Err(error),
        },
        ReturnExpr::Property { span, .. } => Err(
            errors::unsupported_error(
                span,
                "wildcard path variables do not support property projection in this phase"@,
            ),
        ),
        ReturnExpr::Aggregate { span, .. } => Err(
            errors::unsupported_error(
                span,
                "wildcard path variables do not support aggregates in this phase"@,
            ),
        ),
    }
}

/// The bindings of a wildcard path's `RETURN` clause from item `from` on.
pub open spec fn path_returns_from(
    items: Seq<ReturnItem>,
    from: int,
    names: ScopeView,
    done: Seq<ReturnBindingView>,
) -> Result<Seq<ReturnBindingView>, GqlErrorView>
    decreases items.len() - from,
{
    if from >= items.len() {
        Ok(done)
    } else if scope::returns_name(done, scope::item_name(items[from])) {
        Err(scope::duplicate_return(scope::item_name(items[from]), items[from].span))
    } else {
        match path_return(items[from], names) {
            Err(error) => Err(error),
            Ok(binding) => path_returns_from(items, from + 1, names, done.push(binding)),
        }
    }
}

/// What the `RETURN` clause of a wildcard path binds to.
pub open spec fn path_returns(
    items: Seq<ReturnItem>,
    path_var: Seq<char>,
    source_var: Option<Ident>,
    tail: Seq<(RelPat, NodePat)>,
) -> Result<Seq<ReturnBindingView>, GqlErrorView> {
    match path_scope(path_var, source_var, tail) {
        Err(error) => Err(error),
        Ok(names) => path_returns_from(items, 0, names, Seq::empty()),
    }
}

/// Bind the `RETURN` clause of a wildcard path.
pub fn bind_wildcard_path_returns(
    items: &Vec<ReturnItem>,
    path_var: &str,
    source_var: &Option<Ident>,
    tail: &Vec<(RelPat, NodePat)>,
) -> (result: GqlResult<Vec<ReturnBinding>>)
    ensures
        match path_returns(items@, path_var@, *source_var, tail@) {
            Ok(bindings) => result matches Ok(bound) && views::views(bound@) == bindings,
            Err(error) => result matches Err(given) && given@ == error,
        },
{
    let names: BindingScope = bind_path_scope(path_var, source_var, tail)?;
    let mut bindings: Vec<ReturnBinding> = Vec::new();
    assert(views::views(bindings@) =~= Seq::<ReturnBindingView>::empty());
    for i in 0..items.len()
        invariant
            path_scope(path_var@, *source_var, tail@) == Ok::<ScopeView, GqlErrorView>(names@),
            path_returns_from(items@, i as int, names@, views::views(bindings@))
                == path_returns_from(items@, 0, names@, Seq::empty()),
    {
        let item: &ReturnItem = &items[i];
        let name: String = projection_name(item);
        if has_return(&bindings, name.as_str()) {
            return Err(duplicate_return_name(name.as_str(), item.span));
        }
        let binding: ReturnBinding = match &item.expr {
            ReturnExpr::Var { var, span } => match names.get(var.text.as_str()) {
                Some(binding) => scope::return_binding(binding.duplicate(), name),
                None => {
                    return Err(
                        GqlError::bind(
                            *span,
                            concat3("unknown return variable `", var.text.as_str(), "`").as_str(),
                        ),
                    );
                },
            },
            ReturnExpr::Func { name: func_name, args, span } => {
                let func: PathFunc = bind_path_function(func_name, args, *span, &names)?;
                ReturnBinding::PathFunction { func, name }
            },
            ReturnExpr::Property { span, .. } => {
                return Err(
                    GqlError::unsupported(
                        *span,
                        "wildcard path variables do not support property projection in this phase",
                    ),
                );
            },
            ReturnExpr::Aggregate { span, .. } => {
                return Err(
                    GqlError::unsupported(
                        *span,
                        "wildcard path variables do not support aggregates in this phase",
                    ),
                );
            },
        };
        let ghost earlier = bindings@;
        bindings.push(binding);
        proof {
            views::lemma_push(earlier, binding);
        }
    }
    Ok(bindings)
}

// ---------------------------------------------------------------------------
// Catalog of a path
// ---------------------------------------------------------------------------

/// The tables of labels.
pub open spec fn label_tables(labels: Seq<NodeLabelInfoView>) -> Seq<TableLabelView> {
    labels.map_values(
        |info: NodeLabelInfoView| TableLabelView { table_oid: info.table_oid, label: info.label },
    )
}

/// The OIDs of the tables of labels, in order.
pub open spec fn label_oids(labels: Seq<NodeLabelInfoView>) -> Seq<u32> {
    names::sorted_oids(labels.map_values(|info: NodeLabelInfoView| info.table_oid).to_set())
}

/// The types of relationships, in order.
pub open spec fn rel_names(rels: Seq<RelTypeInfoView>) -> Seq<Seq<char>> {
    names::sorted_names(rels.map_values(|rel: RelTypeInfoView| rel.rel_type).to_set())
}

proof fn lemma_to_set_push<A>(items: Seq<A>, item: A)
    ensures
        items.push(item).to_set() == items.to_set().insert(item),
{
    let after = items.push(item);
    assert forall|x: A| items.contains(x) || x == item implies after.contains(x) by {
        if items.contains(x) {
            let i = choose|i: int| 0 <= i < items.len() && items[i] == x;
            assert(after[i] == x);
        } else {
            assert(after[items.len() as int] == x);
        }
    }
    assert forall|x: A| after.contains(x) implies items.contains(x) || x == item by {
        let i = choose|i: int| 0 <= i < after.len() && after[i] == x;
        if i < items.len() {
            assert(items[i] == x);
        }
    }
    assert(after.to_set() =~= items.to_set().insert(item));
}

fn list_tables(labels: &Vec<NodeLabelInfo>) -> (tables: Vec<TableLabel>)
    ensures
        views::views(tables@) == label_tables(views::views(labels@)),
{
    let mut tables: Vec<TableLabel> = Vec::new();
    let ghost all = views::views(labels@);
    for i in 0..labels.len()
        invariant
            all == views::views(labels@),
            views::views(tables@) == label_tables(all).take(i as int),
    {
        assert(all[i as int] == labels@[i as int]@);
        let ghost earlier = tables@;
        let table: TableLabel = TableLabel {
            table_oid: labels[i].table_oid,
            label: labels[i].label.clone(),
        };
        tables.push(table);
        proof {
            views::lemma_push(earlier, table);
            assert(label_tables(all).take(i + 1) =~= label_tables(all).take(i as int).push(table@));
        }
    }
    assert(label_tables(all).take(all.len() as int) =~= label_tables(all));
    tables
}

fn list_oids(labels: &Vec<NodeLabelInfo>) -> (oids: Vec<u32>)
    ensures
        oids@ == label_oids(views::views(labels@)),
{
    let mut oids: Vec<u32> = Vec::new();
    let ghost all = views::views(labels@).map_values(|info: NodeLabelInfoView| info.table_oid);
    assert(oids@.to_set() =~= all.take(0).to_set());
    for i in 0..labels.len()
        invariant
            all == views::views(labels@).map_values(|info: NodeLabelInfoView| info.table_oid),
            names::increasing(oids@),
            oids@.to_set() == all.take(i as int).to_set(),
    {
        insert_oid(&mut oids, labels[i].table_oid);
        proof {
            assert(all.take(i + 1) =~= all.take(i as int).push(all[i as int]));
            lemma_to_set_push(all.take(i as int), all[i as int]);
            assert(all[i as int] == labels@[i as int].table_oid);
        }
    }
    proof {
        assert(all.take(all.len() as int) =~= all);
        names::lemma_sorted_oids(oids@);
    }
    oids
}

fn list_rel_names(rels: &Vec<RelTypeInfo>) -> (set: NameSet)
    ensures
        set@ == rel_names(views::views(rels@)),
{
    let mut set: NameSet = NameSet::new();
    let ghost all = views::views(rels@).map_values(|rel: RelTypeInfoView| rel.rel_type);
    assert(set@.to_set() =~= all.take(0).to_set());
    for i in 0..rels.len()
        invariant
            all == views::views(rels@).map_values(|rel: RelTypeInfoView| rel.rel_type),
            set.wf(),
            set@.to_set() == all.take(i as int).to_set(),
    {
        set.insert(rels[i].rel_type.as_str());
        proof {
            assert(all.take(i + 1) =~= all.take(i as int).push(all[i as int]));
            lemma_to_set_push(all.take(i as int), all[i as int]);
            assert(all[i as int] == rels@[i as int].rel_type@);
        }
    }
    proof {
        assert(all.take(all.len() as int) =~= all);
        names::lemma_sorted_names(set@);
    }
    set
}

// ---------------------------------------------------------------------------
// Paths
// ---------------------------------------------------------------------------

/// Why the shape of a wildcard path query is refused.
pub open spec fn path_shape_error(query: Query) -> Option<GqlErrorView> {
    if semantics::window_error(query) is Some {
        semantics::window_error(query)
    } else if query.match_.optional {
        Some(
            errors::unsupported_error(
                query.match_.span,
                "OPTIONAL MATCH path variables require a later read phase"@,
            ),
        )
    } else if query.where_ is Some || query.with_@.len() > 0 || query.order_by@.len() > 0
        || query.return_.distinct {
        Some(
            errors::unsupported_error(
                query.span,
                "wildcard path variables support only RETURN, SKIP, and LIMIT in this phase"@,
            ),
        )
    } else if query.match_.pattern.tail@.len() == 0 {
        Some(
            errors::unsupported_error(
                query.match_.pattern.span,
                "wildcard path variables require at least one relationship"@,
            ),
        )
    } else {
        None
    }
}

fn check_path_shape(query: &Query) -> (result: GqlResult<()>)
    ensures
        errors::refusal(result) == path_shape_error(*query),
{
    validate_row_window(query)?;
    if query.match_.optional {
        return Err(
            GqlError::unsupported(
                query.match_.span,
                "OPTIONAL MATCH path variables require a later read phase",
            ),
        );
    }
    if query.where_.is_some() || query.with_.len() > 0 || query.order_by.len() > 0
        || query.return_.distinct {
        return Err(
            GqlError::unsupported(
                query.span,
                "wildcard path variables support only RETURN, SKIP, and LIMIT in this phase",
            ),
        );
    }
    if query.match_.pattern.tail.len() == 0 {
        return Err(
            GqlError::unsupported(
                query.match_.pattern.span,
                "wildcard path variables require at least one relationship",
            ),
        );
    }
    Ok(())
}

/// What a wildcard path query binds to.
pub open spec fn bound_path<C: CatalogSnapshot>(query: Query, path_var: Seq<char>, catalog: C) -> Result<
    LogicalWildcardPathPlanView,
    GqlErrorView,
> {
    let start = query.match_.pattern.start;
    let tail = query.match_.pattern.tail@;
    match path_shape_error(query) {
        Some(error) => Err(error),
        None => match node_filter(start, catalog) {
            Err(error) => Err(error),
            Ok(source_table_filter) => match segments_from(
                tail,
                0,
                catalog,
                source_table_filter,
                Seq::empty(),
            ) {
                Err(error) => Err(error),
                Ok(segments) => match path_returns(
                    query.return_.items@,
                    path_var,
                    start.var,
                    tail,
                ) {
                    Err(error) => Err(error),
                    Ok(projected) => Ok(
                        LogicalWildcardPathPlanView {
                            path_var,
                            source_var: semantics::name_text(start.var),
                            rel_var: segments[0].rel_var,
                            target_var: segments[0].target_var,
                            direction: segments[0].direction,
                            returns: projected,
                            source_table_filter,
                            target_table_filter: segments[0].target_table_filter,
                            rel_type_filter: segments[0].rel_type_filter,
                            segments,
                            required_node_table_oids: label_oids(catalog.all_labels()),
                            table_labels: label_tables(catalog.all_labels()),
                            rel_type_labels: rel_names(catalog.all_rels()),
                            skip: query.skip,
                            limit: query.limit,
                        },
                    ),
                },
            },
        },
    }
}

/// Bind a wildcard path query; `path_var` is the variable that names its path.
pub fn bind_wildcard_path_read<C: CatalogSnapshot>(query: &Query, path_var: &Ident, catalog: &C) -> (result:
    GqlResult<LogicalWildcardPathPlan>)
    ensures
        errors::outcome(result) == bound_path(*query, path_var.text@, *catalog),
{
    check_path_shape(query)?;
    let start: &NodePat = &query.match_.pattern.start;
    let tail: &Vec<(RelPat, NodePat)> = &query.match_.pattern.tail;
    let source_table_filter: Option<u32> = bind_wildcard_node_filter(start, catalog)?;
    let segments: Vec<LogicalWildcardPathSegment> = bind_segments(
        tail,
        catalog,
        source_table_filter,
    )?;
    let projected: Vec<ReturnBinding> = bind_wildcard_path_returns(
        &query.return_.items,
        path_var.text.as_str(),
        &start.var,
        tail,
    )?;
    let node_labels: Vec<NodeLabelInfo> = catalog.node_labels();
    let rels: Vec<RelTypeInfo> = catalog.rel_types();
    assert(views::views(segments@)[0] == segments@[0]@);
    Ok(
        LogicalWildcardPathPlan {
            path_var: path_var.text.clone(),
            source_var: ident_text(&start.var),
            rel_var: segments[0].rel_var.clone(),
            target_var: segments[0].target_var.clone(),
            direction: segments[0].direction,
            returns: projected,
            source_table_filter,
            target_table_filter: segments[0].target_table_filter,
            rel_type_filter: segments[0].rel_type_filter.clone(),
            segments,
            required_node_table_oids: list_oids(&node_labels),
            table_labels: list_tables(&node_labels),
            rel_type_labels: list_rel_names(&rels),
            skip: query.skip,
            limit: query.limit,
        },
    )
}

} // verus!
