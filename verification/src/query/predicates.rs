//! Binding of boolean expressions and of the property maps of patterns.
use vstd::prelude::*;

use crate::gql::ast::{CmpOp, Expr, Ident, Literal, NodePat, Operand, RelPat};
use crate::gql::errors::{self, GqlError, GqlErrorView, GqlResult, Span};
use crate::query::logical_plan::{
    self, literal_value_json, BindingSide, BoundCmpOp, BoundNode, BoundNodeView, Predicate,
    PredicateView, Scalar, ScalarView, ValueExpr, ValueExprView,
};
use crate::query::names::{self, has_reserved};
use crate::text::{self, concat3, same_text};
use crate::views;

verus! {

/// Greatest nesting depth of a predicate.
pub const MAX_BOUND_PREDICATE_DEPTH: usize = 512;

/// Greatest number of predicates that a query joins.
pub const MAX_BOUND_PREDICATE_COUNT: usize = 512;

// ---------------------------------------------------------------------------
// Operands
// ---------------------------------------------------------------------------

/// The bound form of a comparison operator.
pub open spec fn bound_op(op: CmpOp) -> BoundCmpOp {
    match op {
        CmpOp::Eq => BoundCmpOp::Eq,
        CmpOp::Neq => BoundCmpOp::Neq,
        CmpOp::Lt => BoundCmpOp::Lt,
        CmpOp::Lte => BoundCmpOp::Lte,
        CmpOp::Gt => BoundCmpOp::Gt,
        CmpOp::Gte => BoundCmpOp::Gte,
        CmpOp::In => BoundCmpOp::In,
        CmpOp::IsNull => BoundCmpOp::IsNull,
        CmpOp::IsNotNull => BoundCmpOp::IsNotNull,
    }
}

/// The bound form of a comparison operator.
pub fn bind_cmp_op(op: CmpOp) -> (bound: BoundCmpOp)
    ensures
        bound == bound_op(op),
{
    match op {
        CmpOp::Eq => BoundCmpOp::Eq,
        CmpOp::Neq => BoundCmpOp::Neq,
        CmpOp::Lt => BoundCmpOp::Lt,
        CmpOp::Lte => BoundCmpOp::Lte,
        CmpOp::Gt => BoundCmpOp::Gt,
        CmpOp::Gte => BoundCmpOp::Gte,
        CmpOp::In => BoundCmpOp::In,
        CmpOp::IsNull => BoundCmpOp::IsNull,
        CmpOp::IsNotNull => BoundCmpOp::IsNotNull,
    }
}

/// The scalar of a literal.
pub open spec fn scalar_of(literal: Literal) -> ScalarView {
    match literal {
        Literal::Value { value, .. } => logical_plan::literal_scalar(value@),
    }
}

/// The scalar of a literal.
pub fn literal_json(literal: &Literal) -> (scalar: Scalar)
    ensures
        scalar@ == scalar_of(*literal),
{
    match literal {
        Literal::Value { value, .. } => literal_value_json(value),
    }
}

/// The scalars of literals.
pub open spec fn scalars_of(literals: Seq<Literal>) -> Seq<ScalarView> {
    literals.map_values(|literal: Literal| scalar_of(literal))
}

/// The scalars of literals.
pub fn literals_json(literals: &Vec<Literal>) -> (scalars: Vec<Scalar>)
    ensures
        views::views(scalars@) == scalars_of(literals@),
{
    let mut scalars: Vec<Scalar> = Vec::new();
    for i in 0..literals.len()
        invariant
            views::views(scalars@) == scalars_of(literals@).take(i as int),
    {
        let ghost earlier = scalars@;
        let scalar: Scalar = literal_json(&literals[i]);
        scalars.push(scalar);
        proof {
            views::lemma_push(earlier, scalar);
            assert(scalars_of(literals@).take(i + 1) =~= scalars_of(literals@).take(i as int).push(
                scalar@,
            ));
        }
    }
    assert(scalars_of(literals@).take(literals@.len() as int) =~= scalars_of(literals@));
    scalars
}

/// The side that a variable names.
pub open spec fn side_of(
    var: Seq<char>,
    source: BoundNodeView,
    target: BoundNodeView,
    span: Span,
) -> Result<BindingSide, GqlErrorView> {
    if var == source.var {
        Ok(BindingSide::Source)
    } else if var == target.var {
        Ok(BindingSide::Target)
    } else {
        Err(errors::bind_error(span, "unknown variable `"@ + var + "`"@))
    }
}

/// The side that a variable names.
pub fn binding_side(var: &str, source: &BoundNode, target: &BoundNode, span: Span) -> (result:
    GqlResult<BindingSide>)
    ensures
        match side_of(var@, source@, target@, span) {
            Ok(side) => result == Ok::<BindingSide, GqlError>(side),
            Err(error) => result matches Err(given) && given@ == error,
        },
{
    if same_text(var, source.var.as_str()) {
        Ok(BindingSide::Source)
    } else if same_text(var, target.var.as_str()) {
        Ok(BindingSide::Target)
    } else {
        Err(GqlError::bind(span, concat3("unknown variable `", var, "`").as_str()))
    }
}

/// Why a property cannot be read on a side.
pub open spec fn property_error(
    side: BindingSide,
    property: Seq<char>,
    source: BoundNodeView,
    target: BoundNodeView,
    span: Span,
) -> Option<GqlErrorView> {
    if names::has_reserved_segment(property) {
        Some(errors::bind_error(span, "reserved GQL property key `"@ + property + "`"@))
    } else {
        match side {
            BindingSide::PathNode(_) => Some(
                errors::unsupported_error(
                    span,
                    "property references over multi-segment path variables require a later phase"@,
                ),
            ),
            BindingSide::Source => if source.properties.contains(property) {
                None
            } else {
                Some(errors::bind_error(span, "unknown property `"@ + property + "`"@))
            },
            BindingSide::Target => if target.properties.contains(property) {
                None
            } else {
                Some(errors::bind_error(span, "unknown property `"@ + property + "`"@))
            },
        }
    }
}

/// Check that a property can be read on a side.
pub fn validate_property(
    side: BindingSide,
    property: &str,
    source: &BoundNode,
    target: &BoundNode,
    span: Span,
) -> (result: GqlResult<()>)
    ensures
        errors::refusal(result) == property_error(side, property@, source@, target@, span),
{
    if has_reserved(property) {
        return Err(
            GqlError::bind(span, concat3("reserved GQL property key `", property, "`").as_str()),
        );
    }
    let known: bool = match side {
        BindingSide::Source => source.properties.contains(property),
        BindingSide::Target => target.properties.contains(property),
        BindingSide::PathNode(_) => {
            return Err(
                GqlError::unsupported(
                    span,
                    "property references over multi-segment path variables require a later phase",
                ),
            );
        },
    };
    if known {
        Ok(())
    } else {
        Err(GqlError::bind(span, concat3("unknown property `", property, "`").as_str()))
    }
}

/// The nodes whose properties operands read.
pub trait OperandScope {
    /// Whether the scope is consistent.
    spec fn wf(&self) -> bool;

    /// What operands bind to.
    spec fn operands(&self) -> spec_fn(Operand) -> Result<ValueExprView, GqlErrorView>;

    /// Bind an operand.
    fn bind_operand(&self, operand: &Operand) -> (result: GqlResult<ValueExpr>)
        requires
            self.wf(),
        ensures
            errors::outcome(result) == self.operands()(*operand),
    ;
}

/// The source and the target of a match.
pub struct MatchScope<'a> {
    pub source: &'a BoundNode,
    pub target: &'a BoundNode,
}

/// What an operand of a match binds to.
pub open spec fn match_operand(
    operand: Operand,
    source: BoundNodeView,
    target: BoundNodeView,
) -> Result<ValueExprView, GqlErrorView> {
    match operand {
        Operand::Property { var, property, .. } => match side_of(
            var.text@,
            source,
            target,
            var.span,
        ) {
            Err(error) => Err(error),
            Ok(side) => match property_error(side, property.text@, source, target, property.span) {
                Some(error) => Err(error),
                None => Ok(ValueExprView::Property { side, property: property.text@ }),
            },
        },
        Operand::Literal(literal) => Ok(ValueExprView::Literal(scalar_of(literal))),
        Operand::Param { name, .. } => Ok(ValueExprView::Param(name.text@)),
        Operand::List { values, .. } => Ok(ValueExprView::List(scalars_of(values@))),
    }
}

/// What operands of a match bind to.
pub open spec fn match_operands(source: BoundNodeView, target: BoundNodeView) -> spec_fn(
    Operand,
) -> Result<ValueExprView, GqlErrorView> {
    |operand: Operand| match_operand(operand, source, target)
}

impl<'a> OperandScope for MatchScope<'a> {
    open spec fn wf(&self) -> bool {
        true
    }

    open spec fn operands(&self) -> spec_fn(Operand) -> Result<ValueExprView, GqlErrorView> {
        match_operands(self.source@, self.target@)
    }

    fn bind_operand(&self, operand: &Operand) -> (result: GqlResult<ValueExpr>) {
        match operand {
            Operand::Property { var, property, .. } => {
                let side: BindingSide = binding_side(
                    var.text.as_str(),
                    self.source,
                    self.target,
                    var.span,
                )?;
                validate_property(
                    side,
                    property.text.as_str(),
                    self.source,
                    self.target,
                    property.span,
                )?;
                Ok(ValueExpr::Property { side, property: property.text.clone() })
            },
            Operand::Literal(literal) => Ok(ValueExpr::Literal(literal_json(literal))),
            Operand::Param { name, .. } => Ok(ValueExpr::Param(name.text.clone())),
            Operand::List { values, .. } => Ok(ValueExpr::List(literals_json(values))),
        }
    }
}

// ---------------------------------------------------------------------------
// Expressions
// ---------------------------------------------------------------------------

/// The place of an expression.
pub open spec fn span_of(expr: Expr) -> Span {
    match expr {
        Expr::And { span, .. } => span,
        Expr::Or { span, .. } => span,
        Expr::Not { span, .. } => span,
        Expr::Compare { span, .. } => span,
    }
}

/// The place of an expression.
pub fn expr_span(expr: &Expr) -> (span: Span)
    ensures
        span == span_of(*expr),
{
    match expr {
        Expr::And { span, .. } => *span,
        Expr::Or { span, .. } => *span,
        Expr::Not { span, .. } => *span,
        Expr::Compare { span, .. } => *span,
    }
}

/// A nesting depth as a number.
pub open spec fn nesting(depth: usize) -> nat {
    depth as nat
}

/// What an expression at a nesting depth binds to.
pub open spec fn bound_expr(
    expr: Expr,
    operands: spec_fn(Operand) -> Result<ValueExprView, GqlErrorView>,
    depth: nat,
) -> Result<PredicateView, GqlErrorView>
    decreases expr,
{
    if depth > MAX_BOUND_PREDICATE_DEPTH {
        Err(errors::syntax_error(span_of(expr), "predicate expression is too deeply nested"@))
    } else {
        match expr {
            Expr::And { lhs, rhs, .. } => match bound_expr(*lhs, operands, depth + 1) {
                Err(error) => Err(error),
                Ok(left) => match bound_expr(*rhs, operands, depth + 1) {
                    Err(error) => Err(error),
                    Ok(right) => Ok(PredicateView::And(Box::new(left), Box::new(right))),
                },
            },
            Expr::Or { lhs, rhs, .. } => match bound_expr(*lhs, operands, depth + 1) {
                Err(error) => Err(error),
                Ok(left) => match bound_expr(*rhs, operands, depth + 1) {
                    Err(error) => Err(error),
                    Ok(right) => Ok(PredicateView::Or(Box::new(left), Box::new(right))),
                },
            },
            Expr::Not { expr: inner, .. } => match bound_expr(*inner, operands, depth + 1) {
                Err(error) => Err(error),
                Ok(inner) => Ok(PredicateView::Not(Box::new(inner))),
            },
            Expr::Compare { lhs, op, rhs, .. } => match operands(lhs) {
                Err(error) => Err(error),
                Ok(left) => match rhs {
                    None => Ok(
                        PredicateView::Compare { lhs: left, op: bound_op(op), rhs: None },
                    ),
                    Some(operand) => match operands(operand) {
                        Err(error) => Err(error),
                        Ok(right) => Ok(
                            PredicateView::Compare {
                                lhs: left,
                                op: bound_op(op),
                                rhs: Some(right),
                            },
                        ),
                    },
                },
            },
        }
    }
}

/// Bind an expression at a nesting depth.
pub fn bind_expr<S: OperandScope>(expr: &Expr, scope: &S, depth: usize) -> (result: GqlResult<
    Predicate,
>)
    requires
        scope.wf(),
    ensures
        errors::outcome(result) == bound_expr(*expr, scope.operands(), nesting(depth)),
    decreases expr,
{
    if depth > MAX_BOUND_PREDICATE_DEPTH {
        return Err(
            GqlError::syntax(expr_span(expr), "predicate expression is too deeply nested"),
        );
    }
    match expr {
        Expr::And { lhs, rhs, .. } => {
            let left: Predicate = bind_expr(lhs, scope, depth + 1)?;
            let right: Predicate = bind_expr(rhs, scope, depth + 1)?;
            Ok(Predicate::And(Box::new(left), Box::new(right)))
        },
        Expr::Or { lhs, rhs, .. } => {
            let left: Predicate = bind_expr(lhs, scope, depth + 1)?;
            let right: Predicate = bind_expr(rhs, scope, depth + 1)?;
            Ok(Predicate::Or(Box::new(left), Box::new(right)))
        },
        Expr::Not { expr: inner, .. } => {
            let inner: Predicate = bind_expr(inner, scope, depth + 1)?;
            Ok(Predicate::Not(Box::new(inner)))
        },
        Expr::Compare { lhs, op, rhs, .. } => {
            let left: ValueExpr = scope.bind_operand(lhs)?;
            let right: Option<ValueExpr> = match rhs {
                None => None,
                Some(operand) => Some(scope.bind_operand(operand)?),
            };
            Ok(Predicate::Compare { lhs: left, op: bind_cmp_op(*op), rhs: right })
        },
    }
}

// ---------------------------------------------------------------------------
// Predicates of a match
// ---------------------------------------------------------------------------

/// The conjunction of predicates, in order.
pub open spec fn conjunction(predicates: Seq<PredicateView>) -> Option<PredicateView>
    decreases predicates.len(),
{
    if predicates.len() == 0 {
        None
    } else {
        match conjunction(predicates.drop_last()) {
            None => Some(predicates.last()),
            Some(earlier) => Some(
                PredicateView::And(Box::new(earlier), Box::new(predicates.last())),
            ),
        }
    }
}

/// The conjunction of predicates, in order.
pub fn conjoin(predicates: Vec<Predicate>) -> (combined: Option<Predicate>)
    ensures
        views::some_view(combined) == conjunction(views::views(predicates@)),
{
    let mut combined: Option<Predicate> = None;
    let ghost all = views::views(predicates@);
    for predicate in iter: predicates
        invariant
            all == views::views(iter.seq()),
            views::some_view(combined) == conjunction(all.take(iter.index() as int)),
    {
        let ghost i = iter.index();
        proof {
            assert(all.take(i + 1).drop_last() =~= all.take(i as int));
            assert(all[i as int] == predicate@);
        }
        combined = match combined {
            None => Some(predicate),
            Some(earlier) => Some(Predicate::And(Box::new(earlier), Box::new(predicate))),
        };
    }
    assert(all.take(all.len() as int) =~= all);
    combined
}

/// Why no more predicates fit.
pub open spec fn count_error(count: nat, span: Span) -> Option<GqlErrorView> {
    if count >= MAX_BOUND_PREDICATE_COUNT {
        Some(errors::syntax_error(span, "too many predicates in GQL query"@))
    } else {
        None
    }
}

/// Check that one more predicate fits.
pub fn check_predicate_count(predicates: &Vec<Predicate>, span: Span) -> (result: GqlResult<()>)
    ensures
        errors::refusal(result) == count_error(predicates@.len(), span),
{
    if predicates.len() >= MAX_BOUND_PREDICATE_COUNT {
        return Err(GqlError::syntax(span, "too many predicates in GQL query"));
    }
    Ok(())
}

/// The predicates with those of a property map from `from` on: each property has
/// to equal its value.
pub open spec fn with_properties(
    props: Seq<(Ident, Operand)>,
    from: int,
    side: BindingSide,
    source: BoundNodeView,
    target: BoundNodeView,
    done: Seq<PredicateView>,
) -> Result<Seq<PredicateView>, GqlErrorView>
    decreases props.len() - from,
{
    if from >= props.len() {
        Ok(done)
    } else {
        let (property, value) = props[from];
        match count_error(done.len(), property.span) {
            Some(error) => Err(error),
            None => match property_error(side, property.text@, source, target, property.span) {
                Some(error) => Err(error),
                None => match match_operand(value, source, target) {
                    Err(error) => Err(error),
                    Ok(right) => with_properties(
                        props,
                        from + 1,
                        side,
                        source,
                        target,
                        done.push(
                            PredicateView::Compare {
                                lhs: ValueExprView::Property { side, property: property.text@ },
                                op: BoundCmpOp::Eq,
                                rhs: Some(right),
                            },
                        ),
                    ),
                },
            },
        }
    }
}

fn bind_properties(
    props: &Vec<(Ident, Operand)>,
    side: BindingSide,
    source: &BoundNode,
    target: &BoundNode,
    predicates: Vec<Predicate>,
) -> (result: GqlResult<Vec<Predicate>>)
    ensures
        match with_properties(
            props@,
            0,
            side,
            source@,
            target@,
            views::views(predicates@),
        ) {
            Ok(all) => result matches Ok(bound) && views::views(bound@) == all,
            Err(error) => result matches Err(given) && given@ == error,
        },
{
    let ghost first = views::views(predicates@);
    let mut bound: Vec<Predicate> = predicates;
    let scope: MatchScope = MatchScope { source, target };
    for i in 0..props.len()
        invariant
            first == views::views(predicates@),
            scope.source == source,
            scope.target == target,
            with_properties(
                props@,
                i as int,
                side,
                source@,
                target@,
                views::views(bound@),
            ) == with_properties(props@, 0, side, source@, target@, first),
    {
        let property: &Ident = &props[i].0;
        check_predicate_count(&bound, property.span)?;
        validate_property(side, property.text.as_str(), source, target, property.span)?;
        let right: ValueExpr = scope.bind_operand(&props[i].1)?;
        let ghost earlier = bound@;
        let predicate: Predicate = Predicate::Compare {
            lhs: ValueExpr::Property { side, property: property.text.clone() },
            op: BoundCmpOp::Eq,
            rhs: Some(right),
        };
        bound.push(predicate);
        proof {
            views::lemma_push(earlier, predicate);
        }
    }
    Ok(bound)
}

/// The predicate list that a `WHERE` clause starts.
pub open spec fn where_predicates(
    where_: Option<Expr>,
    source: BoundNodeView,
    target: BoundNodeView,
) -> Result<Seq<PredicateView>, GqlErrorView> {
    match where_ {
        None => Ok(Seq::empty()),
        Some(expr) => match bound_expr(expr, match_operands(source, target), 0) {
            Ok(predicate) => Ok(seq![predicate]),
            Err(error) => Err(error),
        },
    }
}

fn bind_where(where_: &Option<Expr>, source: &BoundNode, target: &BoundNode) -> (result: GqlResult<
    Vec<Predicate>,
>)
    ensures
        match where_predicates(*where_, source@, target@) {
            Ok(all) => result matches Ok(bound) && views::views(bound@) == all,
            Err(error) => result matches Err(given) && given@ == error,
        },
{
    let mut predicates: Vec<Predicate> = Vec::new();
    assert(views::views(predicates@) =~= Seq::<PredicateView>::empty());
    match where_ {
        Some(expr) => {
            let scope: MatchScope = MatchScope { source, target };
            let predicate: Predicate = bind_expr(expr, &scope, 0)?;
            let ghost earlier = predicates@;
            predicates.push(predicate);
            proof {
                views::lemma_push(earlier, predicate);
                assert(views::views(predicates@) =~= seq![predicate@]);
            }
        },
        None => {},
    }
    Ok(predicates)
}

/// The predicate of a match: its `WHERE` clause and the property maps of its
/// nodes.
pub open spec fn match_predicate(
    where_: Option<Expr>,
    source_pat: NodePat,
    rel_pat: RelPat,
    target_pat: NodePat,
    source: BoundNodeView,
    target: BoundNodeView,
) -> Result<Option<PredicateView>, GqlErrorView> {
    match where_predicates(where_, source, target) {
        Err(error) => Err(error),
        Ok(first) => match with_properties(
            source_pat.props@,
            0,
            BindingSide::Source,
            source,
            target,
            first,
        ) {
            Err(error) => Err(error),
            Ok(second) => match with_properties(
                target_pat.props@,
                0,
                BindingSide::Target,
                source,
                target,
                second,
            ) {
                Err(error) => Err(error),
                Ok(all) => if rel_pat.props@.len() > 0 {
                    Err(
                        errors::unsupported_error(
                            rel_pat.span,
                            "relationship property maps are implemented in a later read phase"@,
                        ),
                    )
                } else {
                    Ok(conjunction(all))
                },
            },
        },
    }
}

/// The predicate of a match: its `WHERE` clause and the property maps of its
/// nodes.
pub fn bind_predicates(
    where_: &Option<Expr>,
    source_pat: &NodePat,
    rel_pat: &RelPat,
    target_pat: &NodePat,
    source: &BoundNode,
    target: &BoundNode,
) -> (result: GqlResult<Option<Predicate>>)
    ensures
        match match_predicate(*where_, *source_pat, *rel_pat, *target_pat, source@, target@) {
            Ok(predicate) => result matches Ok(bound) && views::some_view(bound) == predicate,
            Err(error) => result matches Err(given) && given@ == error,
        },
{
    let first: Vec<Predicate> = bind_where(where_, source, target)?;
    let second: Vec<Predicate> = bind_properties(
        &source_pat.props,
        BindingSide::Source,
        source,
        target,
        first,
    )?;
    let all: Vec<Predicate> = bind_properties(
        &target_pat.props,
        BindingSide::Target,
        source,
        target,
        second,
    )?;
    if rel_pat.props.len() > 0 {
        return Err(
            GqlError::unsupported(
                rel_pat.span,
                "relationship property maps are implemented in a later read phase",
            ),
        );
    }
    Ok(conjoin(all))
}

/// The predicate of a node match: its `WHERE` clause and the property map of the
/// node.
pub open spec fn node_predicate(where_: Option<Expr>, node_pat: NodePat, node: BoundNodeView) -> Result<
    Option<PredicateView>,
    GqlErrorView,
> {
    match where_predicates(where_, node, node) {
        Err(error) => Err(error),
        Ok(first) => match with_properties(
            node_pat.props@,
            0,
            BindingSide::Source,
            node,
            node,
            first,
        ) {
            Err(error) => Err(error),
            Ok(all) => Ok(conjunction(all)),
        },
    }
}

/// The predicate of a node match: its `WHERE` clause and the property map of the
/// node.
pub fn bind_node_predicates(where_: &Option<Expr>, node_pat: &NodePat, node: &BoundNode) -> (result:
    GqlResult<Option<Predicate>>)
    ensures
        match node_predicate(*where_, *node_pat, node@) {
            Ok(predicate) => result matches Ok(bound) && views::some_view(bound) == predicate,
            Err(error) => result matches Err(given) && given@ == error,
        },
{
    let first: Vec<Predicate> = bind_where(where_, node, node)?;
    let all: Vec<Predicate> = bind_properties(
        &node_pat.props,
        BindingSide::Source,
        node,
        node,
        first,
    )?;
    Ok(conjoin(all))
}

} // verus!
