//! Scopes of bound names, and the projections bound in them.
use vstd::prelude::*;

use crate::gql::ast::{self, Ident, NodePat, RelPat, ReturnExpr, ReturnItem, SortItem, SortKey, WithClause};
use crate::gql::errors::{self, GqlError, GqlErrorView, GqlResult, Span};
use crate::query::logical_plan::{
    self, AggregateArg, AggregateArgView, AggregateFunc, BindingSide, BoundNode, BoundNodeView,
    PathFunc, ReturnBinding, ReturnBindingView, SortBinding, SortBindingKey, SortBindingKeyView,
    SortBindingView,
};
use crate::query::names::{self, equal_ignoring_case, NameMap};
use crate::query::predicates::{self, validate_property};
use crate::text::{concat3, same_text};
use crate::views;

verus! {

/// What a name in scope stands for.
#[derive(Debug, Clone, PartialEq, Eq)]
pub enum ScopedBinding {
    /// Node.
    Node(BindingSide),
    /// Relationship; a path where it has variable length.
    Relationship { var_len: bool },
    /// Path.
    Path,
    /// Node property.
    Property { side: BindingSide, property: String },
    /// Path function value.
    PathFunction(PathFunc),
}

/// What `ScopedBinding` holds.
pub enum ScopedBindingView {
    Node(BindingSide),
    Relationship { var_len: bool },
    Path,
    Property { side: BindingSide, property: Seq<char> },
    PathFunction(PathFunc),
}

impl View for ScopedBinding {
    type V = ScopedBindingView;

    open spec fn view(&self) -> ScopedBindingView {
        match self {
            ScopedBinding::Node(inner) => ScopedBindingView::Node(*inner),
            ScopedBinding::Relationship { var_len } => ScopedBindingView::Relationship {
                var_len: *var_len,
            },
            ScopedBinding::Path => ScopedBindingView::Path,
            ScopedBinding::Property { side, property } => ScopedBindingView::Property {
                side: *side,
                property: property@,
            },
            ScopedBinding::PathFunction(inner) => ScopedBindingView::PathFunction(*inner),
        }
    }
}

impl ScopedBinding {
    /// A copy.
    pub fn duplicate(&self) -> (copy: ScopedBinding)
        ensures
            copy@ == self@,
    {
        match self {
            ScopedBinding::Node(inner) => ScopedBinding::Node(*inner),
            ScopedBinding::Relationship { var_len } => ScopedBinding::Relationship {
                var_len: *var_len,
            },
            ScopedBinding::Path => ScopedBinding::Path,
            ScopedBinding::Property { side, property } => ScopedBinding::Property {
                side: *side,
                property: property.clone(),
            },
            ScopedBinding::PathFunction(inner) => ScopedBinding::PathFunction(*inner),
        }
    }
}

/// Names in scope.
pub type BindingScope = NameMap<ScopedBinding>;

/// Names in scope, as a map.
pub type ScopeView = Map<Seq<char>, ScopedBindingView>;

/// The scope after `WITH` clauses, and their `DISTINCT` stages.
#[derive(Debug, Clone, PartialEq, Eq)]
pub struct BoundWith {
    pub scope: BindingScope,
    pub distinct_stages: Vec<Vec<ReturnBinding>>,
}

// ---------------------------------------------------------------------------
// Initial scopes
// ---------------------------------------------------------------------------

/// The error of a variable that a pattern names twice.
pub open spec fn duplicate_variable(name: Seq<char>, span: Span) -> GqlErrorView {
    errors::bind_error(span, "duplicate variable `"@ + name + "` in MATCH scope"@)
}

/// The scope of a relationship match.
pub open spec fn relationship_scope(
    rel_pat: RelPat,
    target_pat: NodePat,
    source: BoundNodeView,
    target: BoundNodeView,
) -> Result<ScopeView, GqlErrorView> {
    let nodes = Map::<Seq<char>, ScopedBindingView>::empty().insert(
        source.var,
        ScopedBindingView::Node(BindingSide::Source),
    ).insert(target.var, ScopedBindingView::Node(BindingSide::Target));
    if source.var == target.var {
        Err(
            duplicate_variable(
                target.var,
                match target_pat.var {
                    Some(var) => var.span,
                    None => target_pat.span,
                },
            ),
        )
    } else {
        match rel_pat.var {
            None => Ok(nodes),
            Some(rel_var) => if rel_var.text@ == source.var || rel_var.text@ == target.var {
                Err(duplicate_variable(rel_var.text@, rel_var.span))
            } else {
                Ok(
                    nodes.insert(
                        rel_var.text@,
                        ScopedBindingView::Relationship { var_len: rel_pat.var_len is Some },
                    ),
                )
            },
        }
    }
}

/// The scope of a relationship match.
pub fn initial_relationship_scope(
    rel_pat: &RelPat,
    target_pat: &NodePat,
    source: &BoundNode,
    target: &BoundNode,
) -> (result: GqlResult<BindingScope>)
    ensures
        errors::outcome(result) == relationship_scope(*rel_pat, *target_pat, source@, target@),
{
    let mut scope: BindingScope = NameMap::new();
    scope.insert(source.var.clone(), ScopedBinding::Node(BindingSide::Source));
    if source.var == target.var {
        let span: Span = match &target_pat.var {
            Some(var) => var.span,
            None => target_pat.span,
        };
        return Err(
            GqlError::bind(
                span,
                concat3("duplicate variable `", target.var.as_str(), "` in MATCH scope").as_str(),
            ),
        );
    }
    scope.insert(target.var.clone(), ScopedBinding::Node(BindingSide::Target));
    match &rel_pat.var {
        Some(rel_var) => {
            if rel_var.text == source.var || rel_var.text == target.var {
                return Err(
                    GqlError::bind(
                        rel_var.span,
                        concat3(
                            "duplicate variable `",
                            rel_var.text.as_str(),
                            "` in MATCH scope",
                        ).as_str(),
                    ),
                );
            }
            scope.insert(
                rel_var.text.clone(),
                ScopedBinding::Relationship { var_len: rel_pat.var_len.is_some() },
            );
        },
        None => {},
    }
    Ok(scope)
}

/// The scope of a node match.
pub open spec fn node_scope(node: BoundNodeView) -> ScopeView {
    Map::<Seq<char>, ScopedBindingView>::empty().insert(
        node.var,
        ScopedBindingView::Node(BindingSide::Source),
    )
}

/// The scope of a node match.
pub fn initial_node_scope(node: &BoundNode) -> (scope: BindingScope)
    ensures
        scope@ == node_scope(node@),
{
    let mut scope: BindingScope = NameMap::new();
    scope.insert(node.var.clone(), ScopedBinding::Node(BindingSide::Source));
    scope
}

// ---------------------------------------------------------------------------
// Projected items
// ---------------------------------------------------------------------------

/// The output name of a projected item: its alias, or what it projects.
pub open spec fn item_name(item: ReturnItem) -> Seq<char> {
    match item.alias {
        Some(alias) => alias.text@,
        None => match item.expr {
            ReturnExpr::Var { var, .. } => var.text@,
            ReturnExpr::Property { var, property, .. } => var.text@ + "."@ + property.text@,
            ReturnExpr::Func { name, .. } => name.text@,
            ReturnExpr::Aggregate { name, .. } => name.text@,
        },
    }
}

/// The output name of a projected item: its alias, or what it projects.
pub fn projection_name(item: &ReturnItem) -> (name: String)
    ensures
        name@ == item_name(*item),
{
    match &item.alias {
        Some(alias) => {
            return alias.text.clone();
        },
        None => {},
    }
    match &item.expr {
        ReturnExpr::Var { var, .. } => var.text.clone(),
        ReturnExpr::Property { var, property, .. } => concat3(
            var.text.as_str(),
            ".",
            property.text.as_str(),
        ),
        ReturnExpr::Func { name, .. } => name.text.clone(),
        ReturnExpr::Aggregate { name, .. } => name.text.clone(),
    }
}

/// The path function that a name stands for, in any ASCII case.
pub open spec fn path_func_of(name: Seq<char>) -> Option<PathFunc> {
    if names::same_ignoring_case(name, "nodes"@) {
        Some(PathFunc::Nodes)
    } else if names::same_ignoring_case(name, "relationships"@) {
        Some(PathFunc::Relationships)
    } else if names::same_ignoring_case(name, "length"@) {
        Some(PathFunc::Length)
    } else {
        None
    }
}

/// The path function that a name stands for, in any ASCII case.
pub fn path_func(name: &str) -> (func: Option<PathFunc>)
    ensures
        func == path_func_of(name@),
{
    if equal_ignoring_case(name, "nodes") {
        Some(PathFunc::Nodes)
    } else if equal_ignoring_case(name, "relationships") {
        Some(PathFunc::Relationships)
    } else if equal_ignoring_case(name, "length") {
        Some(PathFunc::Length)
    } else {
        None
    }
}

/// What a function call binds to.
pub open spec fn function_value(name: Ident, args: Seq<Ident>, span: Span, scope: ScopeView) -> Result<
    PathFunc,
    GqlErrorView,
> {
    match path_func_of(name.text@) {
        None => Err(
            errors::unsupported_error(
                span,
                "RETURN functions are implemented in a later read phase"@,
            ),
        ),
        Some(func) => if args.len() != 1 {
            Err(
                errors::bind_error(
                    span,
                    "path function `"@ + name.text@ + "` requires exactly one path argument"@,
                ),
            )
        } else if !scope.contains_key(args[0].text@) {
            Err(errors::bind_error(args[0].span, "unknown path variable `"@ + args[0].text@ + "`"@))
        } else if scope[args[0].text@] is Relationship || scope[args[0].text@] is Path {
            Ok(func)
        } else {
            Err(
                errors::bind_error(
                    args[0].span,
                    "path function `"@ + name.text@ + "` requires a relationship path variable"@,
                ),
            )
        },
    }
}

/// Bind a path function call.
pub fn bind_path_function(name: &Ident, args: &Vec<Ident>, span: Span, scope: &BindingScope) -> (result:
    GqlResult<PathFunc>)
    ensures
        match function_value(*name, args@, span, scope@) {
            Ok(func) => result == Ok::<PathFunc, GqlError>(func),
            Err(error) => result matches Err(given) && given@ == error,
        },
{
    let func: PathFunc = match path_func(name.text.as_str()) {
        Some(func) => func,
        None => {
            return Err(
                GqlError::unsupported(
                    span,
                    "RETURN functions are implemented in a later read phase",
                ),
            );
        },
    };
    if args.len() != 1 {
        return Err(
            GqlError::bind(
                span,
                concat3(
                    "path function `",
                    name.text.as_str(),
                    "` requires exactly one path argument",
                ).as_str(),
            ),
        );
    }
    let arg: &Ident = &args[0];
    match scope.get(arg.text.as_str()) {
        Some(ScopedBinding::Relationship { .. }) => Ok(func),
        Some(ScopedBinding::Path) => Ok(func),
        Some(_) => Err(
            GqlError::bind(
                arg.span,
                concat3(
                    "path function `",
                    name.text.as_str(),
                    "` requires a relationship path variable",
                ).as_str(),
            ),
        ),
        None => Err(
            GqlError::bind(
                arg.span,
                concat3("unknown path variable `", arg.text.as_str(), "`").as_str(),
            ),
        ),
    }
}

/// What a projected item other than an aggregate stands for.
pub open spec fn item_value(
    item: ReturnItem,
    scope: ScopeView,
    source: BoundNodeView,
    target: BoundNodeView,
) -> Result<ScopedBindingView, GqlErrorView> {
    match item.expr {
        ReturnExpr::Var { var, span } => if scope.contains_key(var.text@) {
            Ok(scope[var.text@])
        } else {
            Err(errors::bind_error(span, "unknown return variable `"@ + var.text@ + "`"@))
        },
        ReturnExpr::Property { var, property, .. } => if !scope.contains_key(var.text@) {
            Err(errors::bind_error(var.span, "unknown return variable `"@ + var.text@ + "`"@))
        } else {
            match scope[var.text@] {
                ScopedBindingView::Node(side) => match predicates::property_error(
                    side,
                    property.text@,
                    source,
                    target,
                    property.span,
                ) {
                    Some(error) => Err(error),
                    None => Ok(ScopedBindingView::Property { side, property: property.text@ }),
                },
                _ => Err(
                    errors::bind_error(
                        var.span,
                        "variable `"@ + var.text@ + "` does not bind a node"@,
                    ),
                ),
            }
        },
        ReturnExpr::Func { name, args, span } => match function_value(name, args@, span, scope) {
            Ok(func) => Ok(ScopedBindingView::PathFunction(func)),
            Err(error) => Err(error),
        },
        ReturnExpr::Aggregate { span, .. } => Err(
            errors::unsupported_error(
                span,
                "aggregate expressions are only supported in RETURN"@,
            ),
        ),
    }
}

/// Bind a projected item other than an aggregate.
pub fn bind_scoped_item(
    item: &ReturnItem,
    scope: &BindingScope,
    source: &BoundNode,
    target: &BoundNode,
) -> (result: GqlResult<(String, ScopedBinding)>)
    ensures
        match item_value(*item, scope@, source@, target@) {
            Ok(binding) => result matches Ok(bound) && bound.0@ == item_name(*item) && bound.1@
                == binding,
            Err(error) => result matches Err(given) && given@ == error,
        },
{
    let binding: ScopedBinding = match &item.expr {
        ReturnExpr::Var { var, span } => match scope.get(var.text.as_str()) {
            Some(binding) => binding.duplicate(),
            None => {
                return Err(
                    GqlError::bind(
                        *span,
                        concat3("unknown return variable `", var.text.as_str(), "`").as_str(),
                    ),
                );
            },
        },
        ReturnExpr::Property { var, property, .. } => match scope.get(var.text.as_str()) {
            Some(ScopedBinding::Node(side)) => {
                validate_property(*side, property.text.as_str(), source, target, property.span)?;
                ScopedBinding::Property { side: *side, property: property.text.clone() }
            },
            Some(_) => {
                return Err(
                    GqlError::bind(
                        var.span,
                        concat3(
                            "variable `",
                            var.text.as_str(),
                            "` does not bind a node",
                        ).as_str(),
                    ),
                );
            },
            None => {
                return Err(
                    GqlError::bind(
                        var.span,
                        concat3("unknown return variable `", var.text.as_str(), "`").as_str(),
                    ),
                );
            },
        },
        ReturnExpr::Func { name, args, span } => {
            let func: PathFunc = bind_path_function(name, args, *span, scope)?;
            ScopedBinding::PathFunction(func)
        },
        ReturnExpr::Aggregate { span, .. } => {
            return Err(
                GqlError::unsupported(
                    *span,
                    "aggregate expressions are only supported in RETURN",
                ),
            );
        },
    };
    Ok((projection_name(item), binding))
}

// ---------------------------------------------------------------------------
// Aggregates
// ---------------------------------------------------------------------------

/// The bound form of an aggregate function.
pub open spec fn bound_aggregate(func: ast::AggregateFunc) -> AggregateFunc {
    match func {
        ast::AggregateFunc::Count => AggregateFunc::Count,
        ast::AggregateFunc::Sum => AggregateFunc::Sum,
        ast::AggregateFunc::Avg => AggregateFunc::Avg,
        ast::AggregateFunc::Min => AggregateFunc::Min,
        ast::AggregateFunc::Max => AggregateFunc::Max,
        ast::AggregateFunc::Collect => AggregateFunc::Collect,
    }
}

/// The bound form of an aggregate function.
pub fn bind_aggregate_func(func: ast::AggregateFunc) -> (bound: AggregateFunc)
    ensures
        bound == bound_aggregate(func),
{
    match func {
        ast::AggregateFunc::Count => AggregateFunc::Count,
        ast::AggregateFunc::Sum => AggregateFunc::Sum,
        ast::AggregateFunc::Avg => AggregateFunc::Avg,
        ast::AggregateFunc::Min => AggregateFunc::Min,
        ast::AggregateFunc::Max => AggregateFunc::Max,
        ast::AggregateFunc::Collect => AggregateFunc::Collect,
    }
}

/// Whether an aggregate takes whole nodes and relationships.
pub open spec fn takes_values(func: ast::AggregateFunc) -> bool {
    func is Count || func is Collect
}

/// Whether an aggregate takes whole nodes and relationships.
pub fn aggregate_accepts_value(func: ast::AggregateFunc) -> (accepts: bool)
    ensures
        accepts == takes_values(func),
{
    func == ast::AggregateFunc::Count || func == ast::AggregateFunc::Collect
}

/// The text of an aggregate function.
pub open spec fn aggregate_text(func: ast::AggregateFunc) -> Seq<char> {
    match func {
        ast::AggregateFunc::Count => "count"@,
        ast::AggregateFunc::Sum => "sum"@,
        ast::AggregateFunc::Avg => "avg"@,
        ast::AggregateFunc::Min => "min"@,
        ast::AggregateFunc::Max => "max"@,
        ast::AggregateFunc::Collect => "collect"@,
    }
}

/// The text of an aggregate function.
pub fn aggregate_name(func: ast::AggregateFunc) -> (name: &'static str)
    ensures
        name@ == aggregate_text(func),
{
    match func {
        ast::AggregateFunc::Count => "count",
        ast::AggregateFunc::Sum => "sum",
        ast::AggregateFunc::Avg => "avg",
        ast::AggregateFunc::Min => "min",
        ast::AggregateFunc::Max => "max",
        ast::AggregateFunc::Collect => "collect",
    }
}

/// The error of an aggregate over an unknown variable.
pub open spec fn unknown_aggregate_variable(name: Seq<char>, span: Span) -> GqlErrorView {
    errors::bind_error(span, "unknown aggregate variable `"@ + name + "`"@)
}

/// What an aggregate argument binds to.
pub open spec fn aggregate_value(
    func: ast::AggregateFunc,
    arg: ast::AggregateArg,
    scope: ScopeView,
    source: BoundNodeView,
    target: BoundNodeView,
) -> Result<AggregateArgView, GqlErrorView> {
    match arg {
        ast::AggregateArg::All { span } => if func is Count {
            Ok(AggregateArgView::All)
        } else {
            Err(errors::bind_error(span, "only count(*) may use '*' as an aggregate argument"@))
        },
        ast::AggregateArg::Var { var, span } => if !scope.contains_key(var.text@) {
            Err(unknown_aggregate_variable(var.text@, span))
        } else {
            let needs_property = errors::bind_error(
                span,
                "aggregate `"@ + aggregate_text(func) + "` requires a property argument"@,
            );
            match scope[var.text@] {
                ScopedBindingView::Node(side) => if takes_values(func) {
                    Ok(AggregateArgView::Node(side))
                } else {
                    Err(needs_property)
                },
                ScopedBindingView::Relationship { var_len: true } => Err(
                    errors::unsupported_error(
                        span,
                        "aggregates over variable-length relationships require path support"@,
                    ),
                ),
                ScopedBindingView::Relationship { var_len: false } => if takes_values(func) {
                    Ok(AggregateArgView::Relationship)
                } else {
                    Err(needs_property)
                },
                _ => Err(needs_property),
            }
        },
        ast::AggregateArg::Property { var, property, .. } => if !scope.contains_key(var.text@) {
            Err(unknown_aggregate_variable(var.text@, var.span))
        } else {
            match scope[var.text@] {
                ScopedBindingView::Node(side) => match predicates::property_error(
                    side,
                    property.text@,
                    source,
                    target,
                    property.span,
                ) {
                    Some(error) => Err(error),
                    None => Ok(AggregateArgView::Property { side, property: property.text@ }),
                },
                _ => Err(
                    errors::bind_error(
                        var.span,
                        "variable `"@ + var.text@ + "` does not bind a node"@,
                    ),
                ),
            }
        },
    }
}

fn needs_property(func: ast::AggregateFunc, span: Span) -> (error: GqlError)
    ensures
        error@ == errors::bind_error(
            span,
            "aggregate `"@ + aggregate_text(func) + "` requires a property argument"@,
        ),
{
    GqlError::bind(
        span,
        concat3("aggregate `", aggregate_name(func), "` requires a property argument").as_str(),
    )
}

/// Bind an aggregate argument.
pub fn bind_aggregate_arg(
    func: ast::AggregateFunc,
    arg: &ast::AggregateArg,
    scope: &BindingScope,
    source: &BoundNode,
    target: &BoundNode,
) -> (result: GqlResult<AggregateArg>)
    ensures
        errors::outcome(result) == aggregate_value(func, *arg, scope@, source@, target@),
{
    match arg {
        ast::AggregateArg::All { span } => {
            if func == ast::AggregateFunc::Count {
                Ok(AggregateArg::All)
            } else {
                Err(
                    GqlError::bind(*span, "only count(*) may use '*' as an aggregate argument"),
                )
            }
        },
        ast::AggregateArg::Var { var, span } => match scope.get(var.text.as_str()) {
            Some(ScopedBinding::Node(side)) => {
                if aggregate_accepts_value(func) {
                    Ok(AggregateArg::Node(*side))
                } else {
                    Err(needs_property(func, *span))
                }
            },
            Some(ScopedBinding::Relationship { var_len }) => {
                if *var_len {
                    Err(
                        GqlError::unsupported(
                            *span,
                            "aggregates over variable-length relationships require path support",
                        ),
                    )
                } else if aggregate_accepts_value(func) {
                    Ok(AggregateArg::Relationship)
                } else {
                    Err(needs_property(func, *span))
                }
            },
            Some(_) => Err(needs_property(func, *span)),
            None => Err(
                GqlError::bind(
                    *span,
                    concat3("unknown aggregate variable `", var.text.as_str(), "`").as_str(),
                ),
            ),
        },
        ast::AggregateArg::Property { var, property, .. } => match scope.get(var.text.as_str()) {
            Some(ScopedBinding::Node(side)) => {
                validate_property(*side, property.text.as_str(), source, target, property.span)?;
                Ok(AggregateArg::Property { side: *side, property: property.text.clone() })
            },
            Some(_) => Err(
                GqlError::bind(
                    var.span,
                    concat3("variable `", var.text.as_str(), "` does not bind a node").as_str(),
                ),
            ),
            None => Err(
                GqlError::bind(
                    var.span,
                    concat3("unknown aggregate variable `", var.text.as_str(), "`").as_str(),
                ),
            ),
        },
    }
}

// ---------------------------------------------------------------------------
// Projections
// ---------------------------------------------------------------------------

/// The `RETURN` binding of a value under a name.
pub open spec fn returned(binding: ScopedBindingView, name: Seq<char>) -> ReturnBindingView {
    match binding {
        ScopedBindingView::Node(side) => ReturnBindingView::Node { side, name },
        ScopedBindingView::Relationship { var_len } => if var_len {
            ReturnBindingView::Path { name }
        } else {
            ReturnBindingView::Relationship { name }
        },
        ScopedBindingView::Path => ReturnBindingView::Path { name },
        ScopedBindingView::PathFunction(func) => ReturnBindingView::PathFunction { func, name },
        ScopedBindingView::Property { side, property } => ReturnBindingView::Property {
            side,
            property,
            name,
        },
    }
}

/// The `RETURN` binding of a value under a name.
pub fn return_binding(binding: ScopedBinding, name: String) -> (bound: ReturnBinding)
    ensures
        bound@ == returned(binding@, name@),
{
    match binding {
        ScopedBinding::Node(side) => ReturnBinding::Node { side, name },
        ScopedBinding::Relationship { var_len } => if var_len {
            ReturnBinding::Path { name }
        } else {
            ReturnBinding::Relationship { name }
        },
        ScopedBinding::Path => ReturnBinding::Path { name },
        ScopedBinding::PathFunction(func) => ReturnBinding::PathFunction { func, name },
        ScopedBinding::Property { side, property } => ReturnBinding::Property {
            side,
            property,
            name,
        },
    }
}

/// Whether bindings return a name.
pub open spec fn returns_name(bindings: Seq<ReturnBindingView>, name: Seq<char>) -> bool {
    exists|i: int|
        0 <= i < bindings.len() && logical_plan::return_name(#[trigger] bindings[i]) == name
}

/// Whether bindings return a name.
pub fn has_return(bindings: &Vec<ReturnBinding>, name: &str) -> (found: bool)
    ensures
        found == returns_name(views::views(bindings@), name@),
{
    let ghost all = views::views(bindings@);
    for i in 0..bindings.len()
        invariant
            all == views::views(bindings@),
            forall|j: int|
                0 <= j < i ==> logical_plan::return_name(#[trigger] all[j]) != name@,
    {
        assert(all[i as int] == bindings@[i as int]@);
        if same_text(bindings[i].name(), name) {
            assert(logical_plan::return_name(all[i as int]) == name@);
            return true;
        }
    }
    false
}

/// The error of a name that is returned twice.
pub open spec fn duplicate_return(name: Seq<char>, span: Span) -> GqlErrorView {
    errors::bind_error(span, "duplicate return name `"@ + name + "`"@)
}

/// The error of a name that is returned twice.
pub fn duplicate_return_name(name: &str, span: Span) -> (error: GqlError)
    ensures
        error@ == duplicate_return(name@, span),
{
    GqlError::bind(span, concat3("duplicate return name `", name, "`").as_str())
}

/// Why an item cannot be projected by `WITH`.
pub open spec fn with_item_error(item: ReturnItem) -> Option<GqlErrorView> {
    match item.expr {
        ReturnExpr::Aggregate { span, .. } => Some(
            errors::unsupported_error(
                span,
                "aggregate WITH projections require row-stream aggregation from a later read phase"@,
            ),
        ),
        ReturnExpr::Func { span, .. } => Some(
            errors::unsupported_error(
                span,
                "path-function WITH projections require row-stream value projection from a later read phase"@,
            ),
        ),
        _ => None,
    }
}

fn check_with_item(item: &ReturnItem) -> (result: GqlResult<()>)
    ensures
        errors::refusal(result) == with_item_error(*item),
{
    match &item.expr {
        ReturnExpr::Aggregate { span, .. } => Err(
            GqlError::unsupported(
                *span,
                "aggregate WITH projections require row-stream aggregation from a later read phase",
            ),
        ),
        ReturnExpr::Func { span, .. } => Err(
            GqlError::unsupported(
                *span,
                "path-function WITH projections require row-stream value projection from a later read phase",
            ),
        ),
        _ => Ok(()),
    }
}

/// The bindings of a `WITH DISTINCT` stage from item `from` on.
pub open spec fn stage_from(
    items: Seq<ReturnItem>,
    from: int,
    scope: ScopeView,
    source: BoundNodeView,
    target: BoundNodeView,
    done: Seq<ReturnBindingView>,
) -> Result<Seq<ReturnBindingView>, GqlErrorView>
    decreases items.len() - from,
{
    if from >= items.len() {
        Ok(done)
    } else {
        match with_item_error(items[from]) {
            Some(error) => Err(error),
            None => match item_value(items[from], scope, source, target) {
                Err(error) => Err(error),
                Ok(binding) => if returns_name(done, item_name(items[from])) {
                    Err(duplicate_return(item_name(items[from]), items[from].span))
                } else {
                    stage_from(
                        items,
                        from + 1,
                        scope,
                        source,
                        target,
                        done.push(returned(binding, item_name(items[from]))),
                    )
                },
            },
        }
    }
}

/// Bind a `WITH DISTINCT` stage.
pub fn bind_distinct_stage(
    items: &Vec<ReturnItem>,
    scope: &BindingScope,
    source: &BoundNode,
    target: &BoundNode,
) -> (result: GqlResult<Vec<ReturnBinding>>)
    ensures
        match stage_from(items@, 0, scope@, source@, target@, Seq::empty()) {
            Ok(stage) => result matches Ok(bound) && views::views(bound@) == stage,
            Err(error) => result matches Err(given) && given@ == error,
        },
{
    let mut stage: Vec<ReturnBinding> = Vec::new();
    assert(views::views(stage@) =~= Seq::<ReturnBindingView>::empty());
    for i in 0..items.len()
        invariant
            stage_from(
                items@,
                i as int,
                scope@,
                source@,
                target@,
                views::views(stage@),
            ) == stage_from(items@, 0, scope@, source@, target@, Seq::empty()),
    {
        let item: &ReturnItem = &items[i];
        check_with_item(item)?;
        let (name, scoped): (String, ScopedBinding) = bind_scoped_item(
            item,
            scope,
            source,
            target,
        )?;
        if has_return(&stage, name.as_str()) {
            return Err(duplicate_return_name(name.as_str(), item.span));
        }
        let ghost earlier = stage@;
        let binding: ReturnBinding = return_binding(scoped, name);
        stage.push(binding);
        proof {
            views::lemma_push(earlier, binding);
        }
    }
    Ok(stage)
}

/// The scope that a `WITH` clause leaves, from item `from` on.
pub open spec fn projected_from(
    items: Seq<ReturnItem>,
    from: int,
    scope: ScopeView,
    source: BoundNodeView,
    target: BoundNodeView,
    done: ScopeView,
) -> Result<ScopeView, GqlErrorView>
    decreases items.len() - from,
{
    if from >= items.len() {
        Ok(done)
    } else {
        match with_item_error(items[from]) {
            Some(error) => Err(error),
            None => match item_value(items[from], scope, source, target) {
                Err(error) => Err(error),
                Ok(binding) => if done.contains_key(item_name(items[from])) {
                    Err(duplicate_return(item_name(items[from]), items[from].span))
                } else {
                    projected_from(
                        items,
                        from + 1,
                        scope,
                        source,
                        target,
                        done.insert(item_name(items[from]), binding),
                    )
                },
            },
        }
    }
}

/// Bind the scope that a `WITH` clause leaves.
pub fn bind_projection_scope(
    items: &Vec<ReturnItem>,
    scope: &BindingScope,
    source: &BoundNode,
    target: &BoundNode,
) -> (result: GqlResult<BindingScope>)
    ensures
        errors::outcome(result) == projected_from(
            items@,
            0,
            scope@,
            source@,
            target@,
            Map::empty(),
        ),
{
    let mut next: BindingScope = NameMap::new();
    for i in 0..items.len()
        invariant
            projected_from(items@, i as int, scope@, source@, target@, next@) == projected_from(
                items@,
                0,
                scope@,
                source@,
                target@,
                Map::empty(),
            ),
    {
        let item: &ReturnItem = &items[i];
        check_with_item(item)?;
        let (name, binding): (String, ScopedBinding) = bind_scoped_item(
            item,
            scope,
            source,
            target,
        )?;
        let error: GqlError = duplicate_return_name(name.as_str(), item.span);
        if next.insert(name, binding) {
            return Err(error);
        }
    }
    Ok(next)
}

/// The scope after `WITH` clauses from `from` on, and their `DISTINCT` stages.
pub open spec fn after_with(
    clauses: Seq<WithClause>,
    from: int,
    scope: ScopeView,
    stages: Seq<Seq<ReturnBindingView>>,
    source: BoundNodeView,
    target: BoundNodeView,
) -> Result<(ScopeView, Seq<Seq<ReturnBindingView>>), GqlErrorView>
    decreases clauses.len() - from,
{
    if from >= clauses.len() {
        Ok((scope, stages))
    } else {
        let items = clauses[from].items@;
        let stage = if clauses[from].distinct {
            match stage_from(items, 0, scope, source, target, Seq::empty()) {
                Ok(stage) => Ok(stages.push(stage)),
                Err(error) => Err(error),
            }
        } else {
            Ok(stages)
        };
        match stage {
            Err(error) => Err(error),
            Ok(stages) => match projected_from(items, 0, scope, source, target, Map::empty()) {
                Err(error) => Err(error),
                Ok(next) => after_with(clauses, from + 1, next, stages, source, target),
            },
        }
    }
}

/// Bind `WITH` clauses.
pub fn bind_with_clauses(
    clauses: &Vec<WithClause>,
    scope: BindingScope,
    source: &BoundNode,
    target: &BoundNode,
) -> (result: GqlResult<BoundWith>)
    ensures
        match after_with(clauses@, 0, scope@, Seq::empty(), source@, target@) {
            Ok((next, stages)) => result matches Ok(bound) && bound.scope@ == next && views::nested(
                bound.distinct_stages@,
            ) == stages,
            Err(error) => result matches Err(given) && given@ == error,
        },
{
    let ghost first = scope@;
    let mut current: BindingScope = scope;
    let mut distinct_stages: Vec<Vec<ReturnBinding>> = Vec::new();
    assert(views::nested(distinct_stages@) =~= Seq::<Seq<ReturnBindingView>>::empty());
    for i in 0..clauses.len()
        invariant
            first == scope@,
            after_with(
                clauses@,
                i as int,
                current@,
                views::nested(distinct_stages@),
                source@,
                target@,
            ) == after_with(clauses@, 0, first, Seq::empty(), source@, target@),
    {
        let clause: &WithClause = &clauses[i];
        if clause.distinct {
            let stage: Vec<ReturnBinding> = bind_distinct_stage(
                &clause.items,
                &current,
                source,
                target,
            )?;
            let ghost earlier = distinct_stages@;
            distinct_stages.push(stage);
            assert(views::nested(distinct_stages@) =~= views::nested(earlier).push(
                views::views(stage@),
            ));
        }
        current = bind_projection_scope(&clause.items, &current, source, target)?;
    }
    Ok(BoundWith { scope: current, distinct_stages })
}

/// What a `RETURN` item binds to.
pub open spec fn item_binding(
    item: ReturnItem,
    scope: ScopeView,
    source: BoundNodeView,
    target: BoundNodeView,
) -> Result<ReturnBindingView, GqlErrorView> {
    match item.expr {
        ReturnExpr::Aggregate { func, distinct, arg, .. } => match aggregate_value(
            func,
            arg,
            scope,
            source,
            target,
        ) {
            Ok(arg) => Ok(
                ReturnBindingView::Aggregate {
                    func: bound_aggregate(func),
                    arg,
                    distinct,
                    name: item_name(item),
                },
            ),
            Err(error) => Err(error),
        },
        _ => match item_value(item, scope, source, target) {
            Ok(binding) => Ok(returned(binding, item_name(item))),
            Err(error) => Err(error),
        },
    }
}

/// The bindings of a `RETURN` clause from item `from` on.
pub open spec fn returns_from(
    items: Seq<ReturnItem>,
    from: int,
    scope: ScopeView,
    source: BoundNodeView,
    target: BoundNodeView,
    done: Seq<ReturnBindingView>,
) -> Result<Seq<ReturnBindingView>, GqlErrorView>
    decreases items.len() - from,
{
    if from >= items.len() {
        Ok(done)
    } else if returns_name(done, item_name(items[from])) {
        Err(duplicate_return(item_name(items[from]), items[from].span))
    } else {
        match item_binding(items[from], scope, source, target) {
            Err(error) => Err(error),
            Ok(binding) => returns_from(
                items,
                from + 1,
                scope,
                source,
                target,
                done.push(binding),
            ),
        }
    }
}

/// Bind a `RETURN` clause.
pub fn bind_scoped_returns(
    items: &Vec<ReturnItem>,
    scope: &BindingScope,
    source: &BoundNode,
    target: &BoundNode,
) -> (result: GqlResult<Vec<ReturnBinding>>)
    ensures
        match returns_from(items@, 0, scope@, source@, target@, Seq::empty()) {
            Ok(bindings) => result matches Ok(bound) && views::views(bound@) == bindings,
            Err(error) => result matches Err(given) && given@ == error,
        },
{
    let mut bindings: Vec<ReturnBinding> = Vec::new();
    assert(views::views(bindings@) =~= Seq::<ReturnBindingView>::empty());
    for i in 0..items.len()
        invariant
            returns_from(
                items@,
                i as int,
                scope@,
                source@,
                target@,
                views::views(bindings@),
            ) == returns_from(items@, 0, scope@, source@, target@, Seq::empty()),
    {
        let item: &ReturnItem = &items[i];
        let name: String = projection_name(item);
        if has_return(&bindings, name.as_str()) {
            return Err(duplicate_return_name(name.as_str(), item.span));
        }
        let binding: ReturnBinding = match &item.expr {
            ReturnExpr::Aggregate { func, distinct, arg, .. } => {
                let arg: AggregateArg = bind_aggregate_arg(*func, arg, scope, source, target)?;
                ReturnBinding::Aggregate {
                    func: bind_aggregate_func(*func),
                    arg,
                    distinct: *distinct,
                    name,
                }
            },
            _ => {
                let (_, scoped): (String, ScopedBinding) = bind_scoped_item(
                    item,
                    scope,
                    source,
                    target,
                )?;
                return_binding(scoped, name)
            },
        };
        let ghost earlier = bindings@;
        bindings.push(binding);
        proof {
            views::lemma_push(earlier, binding);
        }
    }
    Ok(bindings)
}

// ---------------------------------------------------------------------------
// Ordering
// ---------------------------------------------------------------------------

/// Whether bindings return a sortable scalar under a name.
pub open spec fn returns_scalar(bindings: Seq<ReturnBindingView>, name: Seq<char>) -> bool {
    exists|i: int|
        0 <= i < bindings.len() && logical_plan::return_name(#[trigger] bindings[i]) == name
            && logical_plan::sortable_scalar(bindings[i])
}

/// Whether bindings return a sortable scalar under a name.
pub fn has_scalar_return(bindings: &Vec<ReturnBinding>, name: &str) -> (found: bool)
    ensures
        found == returns_scalar(views::views(bindings@), name@),
{
    let ghost all = views::views(bindings@);
    for i in 0..bindings.len()
        invariant
            all == views::views(bindings@),
            forall|j: int|
                0 <= j < i ==> !(logical_plan::return_name(#[trigger] all[j]) == name@
                    && logical_plan::sortable_scalar(all[j])),
    {
        assert(all[i as int] == bindings@[i as int]@);
        if same_text(bindings[i].name(), name) && bindings[i].is_sortable_scalar() {
            assert(logical_plan::return_name(all[i as int]) == name@);
            return true;
        }
    }
    false
}

/// Whether bindings hold an aggregate.
pub open spec fn any_aggregate(bindings: Seq<ReturnBindingView>) -> bool {
    exists|i: int| 0 <= i < bindings.len() && (#[trigger] bindings[i]) is Aggregate
}

/// Whether bindings hold an aggregate.
pub fn has_aggregate(bindings: &Vec<ReturnBinding>) -> (found: bool)
    ensures
        found == any_aggregate(views::views(bindings@)),
{
    let ghost all = views::views(bindings@);
    for i in 0..bindings.len()
        invariant
            all == views::views(bindings@),
            forall|j: int| 0 <= j < i ==> !((#[trigger] all[j]) is Aggregate),
    {
        assert(all[i as int] == bindings@[i as int]@);
        if bindings[i].is_aggregate() {
            assert(all[i as int] is Aggregate);
            return true;
        }
    }
    false
}

/// Whether a binding returns a property of a side.
pub open spec fn returns_property(
    binding: ReturnBindingView,
    side: BindingSide,
    property: Seq<char>,
) -> bool {
    binding matches ReturnBindingView::Property { side: bound_side, property: bound_property, .. }
        && bound_side == side && bound_property == property
}

/// The name of the first binding from `from` on that returns a property of a
/// side.
pub open spec fn property_name(
    bindings: Seq<ReturnBindingView>,
    side: BindingSide,
    property: Seq<char>,
    from: int,
) -> Option<Seq<char>>
    decreases bindings.len() - from,
{
    if from >= bindings.len() {
        None
    } else if returns_property(bindings[from], side, property) {
        Some(logical_plan::return_name(bindings[from]))
    } else {
        property_name(bindings, side, property, from + 1)
    }
}

/// The name of the first binding that returns a property of a side.
pub fn find_property_name(bindings: &Vec<ReturnBinding>, side: BindingSide, property: &str) -> (name:
    Option<String>)
    ensures
        views::some_view(name) == property_name(views::views(bindings@), side, property@, 0),
{
    let ghost all = views::views(bindings@);
    for i in 0..bindings.len()
        invariant
            all == views::views(bindings@),
            property_name(all, side, property@, i as int) == property_name(
                all,
                side,
                property@,
                0,
            ),
    {
        assert(all[i as int] == bindings@[i as int]@);
        match &bindings[i] {
            ReturnBinding::Property { side: bound_side, property: bound_property, name } => {
                if *bound_side == side && same_text(bound_property.as_str(), property) {
                    return Some(name.clone());
                }
            },
            _ => {},
        }
    }
    None
}

/// The name under which a property of a variable is returned.
pub open spec fn returned_property(
    bindings: Seq<ReturnBindingView>,
    scope: ScopeView,
    var: Seq<char>,
    property: Seq<char>,
) -> Option<Seq<char>> {
    if scope.contains_key(var) {
        match scope[var] {
            ScopedBindingView::Node(side) => property_name(bindings, side, property, 0),
            _ => None,
        }
    } else {
        None
    }
}

/// The name under which a property of a variable is returned.
pub fn returned_property_binding(
    bindings: &Vec<ReturnBinding>,
    scope: &BindingScope,
    var: &str,
    property: &str,
) -> (name: Option<String>)
    ensures
        views::some_view(name) == returned_property(
            views::views(bindings@),
            scope@,
            var@,
            property@,
        ),
{
    match scope.get(var) {
        Some(ScopedBinding::Node(side)) => find_property_name(bindings, *side, property),
        _ => None,
    }
}

/// The error of an alias that no scalar is returned under.
pub open spec fn alias_not_scalar(span: Span) -> GqlErrorView {
    errors::unsupported_error(span, "ORDER BY aliases must refer to scalar property returns"@)
}

/// The error of an ordering outside the output of an aggregate query.
pub open spec fn aggregate_order(span: Span) -> GqlErrorView {
    errors::unsupported_error(
        span,
        "aggregate queries must ORDER BY returned property or aggregate aliases"@,
    )
}

/// The error of an ordering outside the output of a `DISTINCT` query.
pub open spec fn distinct_order(span: Span) -> GqlErrorView {
    errors::unsupported_error(span, "DISTINCT queries must ORDER BY returned scalar expressions"@)
}

/// What an alias in `ORDER BY` sorts by.
pub open spec fn alias_key(
    alias: Ident,
    bindings: Seq<ReturnBindingView>,
    scope: ScopeView,
    distinct: bool,
) -> Result<SortBindingKeyView, GqlErrorView> {
    let name = alias.text@;
    if returns_scalar(bindings, name) {
        Ok(SortBindingKeyView::ReturnName(name))
    } else if returns_name(bindings, name) {
        Err(alias_not_scalar(alias.span))
    } else if !scope.contains_key(name) {
        Err(errors::bind_error(alias.span, "unknown ORDER BY alias `"@ + name + "`"@))
    } else {
        match scope[name] {
            ScopedBindingView::Property { side, property } => if any_aggregate(bindings) {
                Err(aggregate_order(alias.span))
            } else if distinct {
                Err(distinct_order(alias.span))
            } else {
                Ok(SortBindingKeyView::Property { side, property })
            },
            _ => Err(alias_not_scalar(alias.span)),
        }
    }
}

fn bind_alias_key(
    alias: &Ident,
    bindings: &Vec<ReturnBinding>,
    scope: &BindingScope,
    distinct: bool,
) -> (result: GqlResult<SortBindingKey>)
    ensures
        errors::outcome(result) == alias_key(*alias, views::views(bindings@), scope@, distinct),
{
    let name: &str = alias.text.as_str();
    if has_scalar_return(bindings, name) {
        return Ok(SortBindingKey::ReturnName(alias.text.clone()));
    }
    if has_return(bindings, name) {
        return Err(
            GqlError::unsupported(
                alias.span,
                "ORDER BY aliases must refer to scalar property returns",
            ),
        );
    }
    match scope.get(name) {
        Some(ScopedBinding::Property { side, property }) => {
            if has_aggregate(bindings) {
                return Err(
                    GqlError::unsupported(
                        alias.span,
                        "aggregate queries must ORDER BY returned property or aggregate aliases",
                    ),
                );
            }
            if distinct {
                return Err(
                    GqlError::unsupported(
                        alias.span,
                        "DISTINCT queries must ORDER BY returned scalar expressions",
                    ),
                );
            }
            Ok(SortBindingKey::Property { side: *side, property: property.clone() })
        },
        Some(_) => Err(
            GqlError::unsupported(
                alias.span,
                "ORDER BY aliases must refer to scalar property returns",
            ),
        ),
        None => Err(
            GqlError::bind(alias.span, concat3("unknown ORDER BY alias `", name, "`").as_str()),
        ),
    }
}

/// What a property in `ORDER BY` sorts by.
pub open spec fn property_key(
    item_span: Span,
    var: Ident,
    property: Ident,
    bindings: Seq<ReturnBindingView>,
    scope: ScopeView,
    source: BoundNodeView,
    target: BoundNodeView,
    distinct: bool,
) -> Result<SortBindingKeyView, GqlErrorView> {
    if any_aggregate(bindings) || distinct {
        match returned_property(bindings, scope, var.text@, property.text@) {
            Some(name) => Ok(SortBindingKeyView::ReturnName(name)),
            None => if any_aggregate(bindings) {
                Err(aggregate_order(item_span))
            } else {
                Err(distinct_order(item_span))
            },
        }
    } else if !scope.contains_key(var.text@) {
        Err(errors::bind_error(var.span, "unknown ORDER BY variable `"@ + var.text@ + "`"@))
    } else {
        match scope[var.text@] {
            ScopedBindingView::Node(side) => match predicates::property_error(
                side,
                property.text@,
                source,
                target,
                property.span,
            ) {
                Some(error) => Err(error),
                None => Ok(SortBindingKeyView::Property { side, property: property.text@ }),
            },
            _ => Err(
                errors::bind_error(
                    var.span,
                    "variable `"@ + var.text@ + "` does not bind a node"@,
                ),
            ),
        }
    }
}

fn bind_property_key(
    item_span: Span,
    var: &Ident,
    property: &Ident,
    bindings: &Vec<ReturnBinding>,
    scope: &BindingScope,
    source: &BoundNode,
    target: &BoundNode,
    distinct: bool,
) -> (result: GqlResult<SortBindingKey>)
    ensures
        errors::outcome(result) == property_key(
            item_span,
            *var,
            *property,
            views::views(bindings@),
            scope@,
            source@,
            target@,
            distinct,
        ),
{
    let aggregate: bool = has_aggregate(bindings);
    if aggregate || distinct {
        return match returned_property_binding(
            bindings,
            scope,
            var.text.as_str(),
            property.text.as_str(),
        ) {
            Some(name) => Ok(SortBindingKey::ReturnName(name)),
            None => if aggregate {
                Err(
                    GqlError::unsupported(
                        item_span,
                        "aggregate queries must ORDER BY returned property or aggregate aliases",
                    ),
                )
            } else {
                Err(
                    GqlError::unsupported(
                        item_span,
                        "DISTINCT queries must ORDER BY returned scalar expressions",
                    ),
                )
            },
        };
    }
    match scope.get(var.text.as_str()) {
        Some(ScopedBinding::Node(side)) => {
            validate_property(*side, property.text.as_str(), source, target, property.span)?;
            Ok(SortBindingKey::Property { side: *side, property: property.text.clone() })
        },
        Some(_) => Err(
            GqlError::bind(
                var.span,
                concat3("variable `", var.text.as_str(), "` does not bind a node").as_str(),
            ),
        ),
        None => Err(
            GqlError::bind(
                var.span,
                concat3("unknown ORDER BY variable `", var.text.as_str(), "`").as_str(),
            ),
        ),
    }
}

/// What an `ORDER BY` item binds to.
pub open spec fn sort_binding(
    item: SortItem,
    bindings: Seq<ReturnBindingView>,
    scope: ScopeView,
    source: BoundNodeView,
    target: BoundNodeView,
    distinct: bool,
) -> Result<SortBindingView, GqlErrorView> {
    let key = match item.key {
        SortKey::Alias { alias, .. } => alias_key(alias, bindings, scope, distinct),
        SortKey::Property { var, property, .. } => property_key(
            item.span,
            var,
            property,
            bindings,
            scope,
            source,
            target,
            distinct,
        ),
    };
    match key {
        Ok(key) => Ok(SortBindingView { key, desc: item.desc }),
        Err(error) => Err(error),
    }
}

/// The bindings of an `ORDER BY` clause from item `from` on.
pub open spec fn sorts_from(
    items: Seq<SortItem>,
    from: int,
    bindings: Seq<ReturnBindingView>,
    scope: ScopeView,
    source: BoundNodeView,
    target: BoundNodeView,
    distinct: bool,
    done: Seq<SortBindingView>,
) -> Result<Seq<SortBindingView>, GqlErrorView>
    decreases items.len() - from,
{
    if from >= items.len() {
        Ok(done)
    } else {
        match sort_binding(items[from], bindings, scope, source, target, distinct) {
            Err(error) => Err(error),
            Ok(sort) => sorts_from(
                items,
                from + 1,
                bindings,
                scope,
                source,
                target,
                distinct,
                done.push(sort),
            ),
        }
    }
}

/// Bind an `ORDER BY` clause.
pub fn bind_scoped_sort_items(
    items: &Vec<SortItem>,
    bindings: &Vec<ReturnBinding>,
    scope: &BindingScope,
    source: &BoundNode,
    target: &BoundNode,
    distinct: bool,
) -> (result: GqlResult<Vec<SortBinding>>)
    ensures
        match sorts_from(
            items@,
            0,
            views::views(bindings@),
            scope@,
            source@,
            target@,
            distinct,
            Seq::empty(),
        ) {
            Ok(sorts) => result matches Ok(bound) && views::views(bound@) == sorts,
            Err(error) => result matches Err(given) && given@ == error,
        },
{
    let mut sorts: Vec<SortBinding> = Vec::new();
    assert(views::views(sorts@) =~= Seq::<SortBindingView>::empty());
    for i in 0..items.len()
        invariant
            sorts_from(
                items@,
                i as int,
                views::views(bindings@),
                scope@,
                source@,
                target@,
                distinct,
                views::views(sorts@),
            ) == sorts_from(
                items@,
                0,
                views::views(bindings@),
                scope@,
                source@,
                target@,
                distinct,
                Seq::empty(),
            ),
    {
        let item: &SortItem = &items[i];
        let key: SortBindingKey = match &item.key {
            SortKey::Alias { alias, .. } => bind_alias_key(alias, bindings, scope, distinct)?,
            SortKey::Property { var, property, .. } => bind_property_key(
                item.span,
                var,
                property,
                bindings,
                scope,
                source,
                target,
                distinct,
            )?,
        };
        let ghost earlier = sorts@;
        let sort: SortBinding = SortBinding { key, desc: item.desc };
        sorts.push(sort);
        proof {
            views::lemma_push(earlier, sort);
        }
    }
    Ok(sorts)
}

} // verus!
