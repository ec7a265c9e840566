//! Where an expression is defined, and where its value is needed.
//!
//! The domain of an expression is built from the leaves up: constants have the one point without
//! indices, variables their declared domain, operators need all of their operands, a case any of
//! its branches, a dependence the points that its function sends into its operand's domain, and a
//! reduction the points that its projection sends its body's domain to. The context of an
//! expression goes the other way: it starts with the domain of the equation's variable and narrows
//! from the root down.
use crate::context_names::{
    bare_colon, bare_identifier, bare_identifier_elements, copy_all, domain_names,
    domain_tuple_names, extend_unique, extended, is_bare_colon_domain, range_names,
    relation_range_names,
};
use crate::diagnostic::{issue, Diagnostic, Issue, IssueKind};
use crate::function::{function_text, function_value, polynomial_value, write_function};
use crate::polyhedral::{
    combine, combined, context_models, failed_set, map_failure, one_value, set_failure,
    value_models, ContextModel, ContextPlan, FunctionModel, FunctionTerm, MapModel, MapTerm,
    SetModel, SetOp, SetTerm, Value, ValueModel,
};
use crate::resolve::{
    calc_value, guard_set, param_set, prefixed, source_text, text_in, undefined, variable_set,
    written, Resolver,
};
use crate::scan::{inside, strip, trim, trimmed};
use crate::syntax::{Calc, CalcKind, Expr, ExprKind, Span, System, SystemBody, UseEquation};
use crate::text::{cat3, cat5, join, joined, views};
use vstd::prelude::*;

verus! {

/// A part that the source text leaves out.
pub open spec fn missing_part(what: Seq<char>, span: Span) -> Issue {
    undefined("<missing "@ + what + ">"@, span)
}

fn missing(what: &str, span: Span) -> (r: Diagnostic)
    ensures
        r@ == missing_part(what@, span),
{
    Diagnostic::UndefinedReference {
        name: cat3("<missing ", what, ">"),
        start: span.start,
        end: span.end,
    }
}

/// An operand of a kind that cannot stand in its place.
pub open spec fn wrong_kind(place: Seq<char>, kind: Seq<char>, span: Span) -> Issue {
    issue(IssueKind::InvalidCalculatorOperand, seq![place, kind], span.pair())
}

fn invalid_operand(place: &str, kind: &str, span: Span) -> (r: Diagnostic)
    ensures
        r@ == wrong_kind(place@, kind@, span),
{
    Diagnostic::InvalidCalculatorOperand {
        operator: place.to_owned(),
        operand_kind: kind.to_owned(),
        start: span.start,
        end: span.end,
    }
}

pub open spec fn not_supported(what: Seq<char>, span: Span) -> Issue {
    issue(IssueKind::UnsupportedCalculatorOp, seq![what], span.pair())
}

fn unsupported_op(what: &str, span: Span) -> (r: Diagnostic)
    ensures
        r@ == not_supported(what@, span),
{
    Diagnostic::UnsupportedCalculatorOp {
        operator: what.to_owned(),
        start: span.start,
        end: span.end,
    }
}

/// The one point without indices, for the parameter values that a system allows.
pub open spec fn scalar_set(s: System) -> SetModel {
    combined(
        SetOp::WithinParams,
        param_set(s),
        SetModel::Read(prefixed(s, "{ [] : }"@), s.span),
        s.span,
    )
}

/// The union of the guards of the bodies that have one.
pub open spec fn guards_union(s: System, bodies: Seq<SystemBody>, at: Span) -> Option<SetModel>
    decreases bodies.len(),
{
    if bodies.len() == 0 {
        None
    } else {
        let before = guards_union(s, bodies.drop_last(), at);
        match bodies.last().guard {
            None => before,
            Some(g) => match before {
                None => Some(guard_set(s, g)),
                Some(u) => Some(combined(SetOp::Union, u, guard_set(s, g), at)),
            },
        }
    }
}

/// How many bodies have no guard.
pub open spec fn unguarded(bodies: Seq<SystemBody>) -> nat
    decreases bodies.len(),
{
    if bodies.len() == 0 {
        0
    } else {
        unguarded(bodies.drop_last()) + if bodies.last().guard is None { 1nat } else { 0nat }
    }
}

/// The parameter values that select a body: those of its guard, or, for the one body that may do
/// without, those that no guard lets through.
pub open spec fn body_set(s: System, body: SystemBody) -> SetModel {
    match body.guard {
        Some(g) => guard_set(s, g),
        None => {
            let union = guards_union(s, s.bodies@, body.span);
            if unguarded(s.bodies@) > 1 {
                SetModel::Failed(
                    match union {
                        None => Seq::empty(),
                        Some(u) => seq![ValueModel::Points(u)],
                    },
                    issue(
                        IssueKind::MultipleUnrestrictedSystemBody,
                        seq![],
                        body.span.pair(),
                    ),
                )
            } else {
                match union {
                    None => param_set(s),
                    Some(u) => combined(SetOp::Outside, u, param_set(s), body.span),
                }
            }
        },
    }
}

/// The index names of a use equation: those of the region it is instantiated over, and those of
/// the dimensions of the system it calls.
pub open spec fn use_names(u: UseEquation) -> Seq<Seq<char>> {
    let over = match u.over {
        Some(c) => match c.kind {
            CalcKind::RectangularDomain { names } => views(names@),
            CalcKind::Domain => domain_names(source_text(c)),
            _ => Seq::empty(),
        },
        None => Seq::empty(),
    };
    extended(over, views(u.dims@))
}

pub fn use_equation_context(u: &UseEquation) -> (r: Vec<String>)
    ensures
        views(r@) == use_names(*u),
{
    let none: Vec<String> = Vec::new();
    proof {
        assert(views(none@) =~= Seq::<Seq<char>>::empty());
    }
    match &u.over {
        Some(c) => match &c.kind {
            CalcKind::RectangularDomain { names } => extend_unique(names, &u.dims),
            CalcKind::Domain => {
                let text = written(c);
                let names = domain_tuple_names(text.as_str());
                extend_unique(&names, &u.dims)
            },
            _ => extend_unique(&none, &u.dims),
        },
        None => extend_unique(&none, &u.dims),
    }
}

/// Constraints on the index names in scope.
pub open spec fn constraints_set(
    s: System,
    at: Span,
    text: Seq<char>,
    context: Seq<Seq<char>>,
) -> SetModel {
    let body = trimmed(inside(trimmed(text), '{', '}'));
    SetModel::Read(
        prefixed(s, "{ ["@ + joined(context, ","@) + "] "@ + body + " }"@),
        at,
    )
}

/// The set that a restriction keeps its operand to, and the index names inside it. Constraints
/// without a tuple are about the names in scope; a tuple of as many names takes their place.
#[verifier::opaque]
pub open spec fn restriction(
    s: System,
    domain: Option<Calc>,
    span: Span,
    context: Seq<Seq<char>>,
) -> (SetModel, Seq<Seq<char>>) {
    match domain {
        None => (failed_set(missing_part("restrict domain"@, span)), context),
        Some(d) => {
            let text = text_in(s, d);
            if d.kind is ArrayDomain || bare_colon(text) {
                (constraints_set(s, d.span, text, context), context)
            } else {
                let names = if d.kind is Domain {
                    domain_names(source_text(d))
                } else {
                    Seq::empty()
                };
                match calc_value(s, d, Seq::empty()) {
                    ValueModel::Points(p) => if names.len() > 0 && context.len() > 0 && names.len()
                        != context.len() {
                        (
                            SetModel::Failed(
                                seq![ValueModel::Points(p)],
                                issue(
                                    IssueKind::RestrictDomainDimensionMismatch,
                                    seq![],
                                    span.pair(),
                                ),
                            ),
                            context,
                        )
                    } else {
                        (p, if names.len() == 0 { context } else { names })
                    },
                    ValueModel::Failed(before, error) => (SetModel::Failed(before, error), context),
                    other => (
                        SetModel::Failed(
                            seq![other],
                            wrong_kind("restrict domain"@, other.kind(), d.span),
                        ),
                        context,
                    ),
                }
            }
        },
    }
}

/// The relation of a selection, and the index names inside it: those of the relation's second
/// tuple, where it has any.
#[verifier::opaque]
pub open spec fn selection(
    s: System,
    relation: Option<Calc>,
    span: Span,
    context: Seq<Seq<char>>,
) -> (MapModel, Seq<Seq<char>>) {
    match relation {
        None => (
            MapModel::Failed(Seq::empty(), missing_part("select relation"@, span)),
            context,
        ),
        Some(c) => {
            let names = if c.kind is Relation {
                range_names(source_text(c))
            } else {
                Seq::empty()
            };
            match calc_value(s, c, Seq::empty()) {
                ValueModel::Relation(m) => (
                    if context.len() > 0 {
                        MapModel::Expect(
                            Box::new(m),
                            context.len() as usize,
                            issue(
                                IssueKind::SelectRelationDimensionMismatch,
                                seq![],
                                span.pair(),
                            ),
                        )
                    } else {
                        m
                    },
                    if names.len() == 0 { context } else { names },
                ),
                ValueModel::Failed(before, error) => (MapModel::Failed(before, error), context),
                other => (
                    MapModel::Failed(
                        seq![other],
                        wrong_kind("select relation"@, other.kind(), c.span),
                    ),
                    context,
                ),
            }
        },
    }
}

/// The projection of a reduction, and the index names inside it. The array notation brings in new
/// names, which the projection takes away again.
#[verifier::opaque]
pub open spec fn projection_of(
    s: System,
    projection: Option<Calc>,
    span: Span,
    context: Seq<Seq<char>>,
) -> (FunctionModel, Seq<Seq<char>>) {
    match projection {
        None => (FunctionModel::Failed(missing_part("reduce projection"@, span)), context),
        Some(c) => match c.kind {
            CalcKind::ArrayFunction { elements } => {
                let names = views(elements@).filter(|e: Seq<char>| bare_identifier(e));
                let all = extended(context, names);
                (FunctionModel::Read(prefixed(s, function_text(all, context)), c.span), all)
            },
            CalcKind::Function { inputs, exprs } => (
                function_value(s, c, Seq::empty()),
                views(inputs@),
            ),
            _ => (
                FunctionModel::Failed(
                    wrong_kind(
                        "reduce projection"@,
                        "non-function calculator expression"@,
                        c.span,
                    ),
                ),
                context,
            ),
        },
    }
}

/// The index names inside a convolution: those of its kernel's region come on top.
pub open spec fn kernel_names(domain: Option<Calc>, context: Seq<Seq<char>>) -> Seq<Seq<char>> {
    match domain {
        Some(c) => match c.kind {
            CalcKind::RectangularDomain { names } => extended(context, views(names@)),
            _ => context,
        },
        None => context,
    }
}

/// The points that an index expression takes: any, as many as its function or polynomial has
/// arguments.
#[verifier::opaque]
pub open spec fn index_set(
    s: System,
    source: Option<Calc>,
    span: Span,
    context: Seq<Seq<char>>,
) -> SetModel {
    match source {
        None => failed_set(missing_part("index source"@, span)),
        Some(c) => match c.kind {
            CalcKind::Function { inputs, exprs } => SetModel::FunctionSpace(
                function_value(s, c, context),
                span,
            ),
            CalcKind::ArrayFunction { elements } => SetModel::FunctionSpace(
                function_value(s, c, context),
                span,
            ),
            CalcKind::Polynomial => match calc_value(s, c, Seq::empty()) {
                ValueModel::Polynomial(p) => SetModel::PolynomialSpace(p, span),
                other => SetModel::Failed(
                    seq![other],
                    wrong_kind("val index source"@, other.kind(), span),
                ),
            },
            CalcKind::ArrayPolynomial => SetModel::PolynomialSpace(
                polynomial_value(s, c, context),
                span,
            ),
            CalcKind::FuzzyFunction | CalcKind::ArrayFuzzyFunction => failed_set(
                not_supported("fuzzy index expression"@, span),
            ),
            _ => failed_set(
                wrong_kind(
                    "index source"@,
                    "non-function, non-polynomial calculator expression"@,
                    c.span,
                ),
            ),
        },
    }
}

/// The sets combined from the left.
pub open spec fn folded(op: SetOp, sets: Seq<SetModel>, at: Span) -> SetModel
    decreases sets.len(),
{
    if sets.len() <= 1 {
        sets[0]
    } else {
        combined(op, folded(op, sets.drop_last(), at), sets.last(), at)
    }
}

/// The sets combined from the left; without any, what is missing.
pub open spec fn several_set(op: SetOp, sets: Seq<SetModel>, what: Seq<char>, at: Span) -> SetModel {
    if sets.len() == 0 {
        failed_set(missing_part(what, at))
    } else {
        folded(op, sets, at)
    }
}

pub open spec fn text_or_none(name: Option<String>) -> Seq<char> {
    match name {
        Some(n) => n@,
        None => Seq::empty(),
    }
}

/// Where a part of an expression is defined.
pub open spec fn part_set(
    s: System,
    part: Option<Box<Expr>>,
    span: Span,
    context: Seq<Seq<char>>,
) -> SetModel
    decreases part, 0int,
{
    match part {
        None => failed_set(missing_part("sub-expression"@, span)),
        Some(e) => expression_set(s, *e, context),
    }
}

/// The parts of a convolution that are there, in order.
pub open spec fn part_values(
    s: System,
    part: Option<Box<Expr>>,
    context: Seq<Seq<char>>,
) -> Seq<ValueModel>
    decreases part, 0int,
{
    match part {
        None => Seq::empty(),
        Some(e) => seq![ValueModel::Points(expression_set(s, *e, context))],
    }
}

/// Where a restricted expression is defined: where it is, within the restriction.
pub open spec fn restrict_set(
    s: System,
    domain: Option<Calc>,
    expr: Option<Box<Expr>>,
    span: Span,
    context: Seq<Seq<char>>,
) -> SetModel
    decreases expr, 1int,
{
    let (set, names) = restriction(s, domain, span, context);
    combined(SetOp::Within, set, part_set(s, expr, span, names), span)
}

/// Where a dependence is defined: at the points that its function sends into the operand's domain.
pub open spec fn dependence_set(
    s: System,
    function: Option<Calc>,
    expr: Option<Box<Expr>>,
    span: Span,
    context: Seq<Seq<char>>,
) -> SetModel
    decreases expr, 1int,
{
    let inner = part_set(s, expr, span, context);
    match function {
        None => SetModel::Failed(
            seq![ValueModel::Points(inner)],
            missing_part("dependence function"@, span),
        ),
        Some(f) => SetModel::Preimage(
            Box::new(inner),
            function_value(s, f, context),
            span,
            span,
        ),
    }
}

/// Where a reduction is defined: at the points that its projection sends the body's domain to.
pub open spec fn reduce_set(
    s: System,
    projection: Option<Calc>,
    body: Option<Box<Expr>>,
    span: Span,
    context: Seq<Seq<char>>,
) -> SetModel
    decreases body, 1int,
{
    let (function, names) = projection_of(s, projection, span, context);
    SetModel::Project(function, Box::new(part_set(s, body, span, names)), span)
}

/// Where a selection is defined: at the points that its relation relates to the operand's domain.
pub open spec fn select_set(
    s: System,
    relation: Option<Calc>,
    expr: Option<Box<Expr>>,
    span: Span,
    context: Seq<Seq<char>>,
) -> SetModel
    decreases expr, 1int,
{
    let (map, names) = selection(s, relation, span, context);
    SetModel::Select(Box::new(map), Box::new(part_set(s, expr, span, names)), span)
}

/// Where each of several expressions is defined.
pub open spec fn expression_sets(s: System, v: Vec<Expr>, context: Seq<Seq<char>>) -> Seq<SetModel>
    decreases v, 0int,
{
    Seq::new(
        v@.len(),
        |i: int|
            if 0 <= i < v@.len() {
                expression_set(s, v@[i], context)
            } else {
                arbitrary()
            },
    )
}

/// Where an expression is defined. `context` is the index names in scope.
pub open spec fn expression_set(s: System, e: Expr, context: Seq<Seq<char>>) -> SetModel
    decreases e, 0int,
{
    SetModel::Record(
        e.node,
        Box::new(
            match e.kind {
                ExprKind::Bool | ExprKind::Int | ExprKind::Real => scalar_set(s),
                ExprKind::Variable { name } => variable_set(s, text_or_none(name), Seq::empty()),
                ExprKind::Binary { operator, lhs, rhs } => combined(
                    SetOp::Intersect,
                    part_set(s, lhs, e.span, context),
                    part_set(s, rhs, e.span, context),
                    e.span,
                ),
                ExprKind::Unary { operator, operand } => part_set(s, operand, e.span, context),
                ExprKind::Paren { inner } => part_set(s, inner, e.span, context),
                ExprKind::AutoRestrict { expr } => part_set(s, expr, e.span, context),
                ExprKind::MultiArg { operator, args } => several_set(
                    SetOp::Intersect,
                    expression_sets(s, args, context),
                    "argument"@,
                    e.span,
                ),
                ExprKind::Case { branches } => several_set(
                    SetOp::Union,
                    expression_sets(s, branches, context),
                    "case branch"@,
                    e.span,
                ),
                ExprKind::If { cond, then_branch, else_branch } => SetModel::Meet(
                    Box::new(part_set(s, cond, e.span, context)),
                    Box::new(part_set(s, then_branch, e.span, context)),
                    Box::new(part_set(s, else_branch, e.span, context)),
                    e.span,
                ),
                ExprKind::Restrict { domain, expr } => restrict_set(
                    s,
                    domain,
                    expr,
                    e.span,
                    context,
                ),
                ExprKind::Dependence { function, expr } => dependence_set(
                    s,
                    function,
                    expr,
                    e.span,
                    context,
                ),
                ExprKind::Index { source } => index_set(s, source, e.span, context),
                ExprKind::Reduce { projection, body } => reduce_set(
                    s,
                    projection,
                    body,
                    e.span,
                    context,
                ),
                ExprKind::Select { relation, expr } => select_set(
                    s,
                    relation,
                    expr,
                    e.span,
                    context,
                ),
                ExprKind::Convolution { kernel_domain, kernel, data } => {
                    let names = kernel_names(kernel_domain, context);
                    SetModel::Failed(
                        part_values(s, kernel, names) + part_values(s, data, names),
                        not_supported("convolution expression-domain inference"@, e.span),
                    )
                },
            },
        ),
    )
}

/// The nodes of the branches other than `node`.
pub open spec fn other_nodes(branches: Seq<Expr>, node: usize) -> Seq<usize>
    decreases branches.len(),
{
    if branches.len() == 0 {
        Seq::empty()
    } else {
        let before = other_nodes(branches.drop_last(), node);
        if branches.last().node == node {
            before
        } else {
            before.push(branches.last().node)
        }
    }
}

/// How many branches are auto-restricts.
pub open spec fn auto_restricts(branches: Seq<Expr>) -> nat
    decreases branches.len(),
{
    if branches.len() == 0 {
        0
    } else {
        auto_restricts(branches.drop_last()) + if branches.last().kind is AutoRestrict {
            1nat
        } else {
            0nat
        }
    }
}

/// How the contexts inside a part of an expression are found.
pub open spec fn part_plan(s: System, part: Option<Box<Expr>>, context: Seq<Seq<char>>) ->
    ContextModel
    decreases part, 0int,
{
    match part {
        None => ContextModel::Nothing,
        Some(e) => context_plan(s, *e, context, None),
    }
}

/// How the contexts inside a restriction are found. The set of the restriction was taken into
/// account with the domain; only its index names matter here.
pub open spec fn restrict_plan(
    s: System,
    domain: Option<Calc>,
    expr: Option<Box<Expr>>,
    span: Span,
    context: Seq<Seq<char>>,
) -> ContextModel
    decreases expr, 1int,
{
    match expr {
        None => ContextModel::Nothing,
        Some(inner) => {
            let (set, names) = restriction(s, domain, span, context);
            ContextModel::After(set, Box::new(part_plan(s, expr, names)))
        },
    }
}

/// How the contexts inside a dependence are found: at the points that its function leads to.
pub open spec fn dependence_plan(
    s: System,
    function: Option<Calc>,
    expr: Option<Box<Expr>>,
    span: Span,
    context: Seq<Seq<char>>,
) -> ContextModel
    decreases expr, 1int,
{
    match function {
        None => ContextModel::Nothing,
        Some(f) => ContextModel::Forward(
            function_value(s, f, context),
            span,
            Box::new(part_plan(s, expr, context)),
        ),
    }
}

/// How the contexts inside a selection are found: at the points that its relation leads to.
pub open spec fn select_plan(
    s: System,
    relation: Option<Calc>,
    expr: Option<Box<Expr>>,
    span: Span,
    context: Seq<Seq<char>>,
) -> ContextModel
    decreases expr, 1int,
{
    let (map, names) = selection(s, relation, span, context);
    ContextModel::Across(map, span, Box::new(part_plan(s, expr, names)))
}

/// How the contexts inside a reduction are found: at the points that its projection leads from.
pub open spec fn reduce_plan(
    s: System,
    projection: Option<Calc>,
    body: Option<Box<Expr>>,
    span: Span,
    context: Seq<Seq<char>>,
) -> ContextModel
    decreases body, 1int,
{
    let (function, names) = projection_of(s, projection, span, context);
    ContextModel::Back(function, span, Box::new(part_plan(s, body, names)))
}

/// How the context of an auto-restrict is found: it takes what the other branches leave. It has to
/// be a branch of a case, and the only such one.
pub open spec fn auto_restrict_plan(
    s: System,
    node: usize,
    span: Span,
    expr: Option<Box<Expr>>,
    context: Seq<Seq<char>>,
    branches: Option<Seq<Expr>>,
) -> ContextModel
    decreases expr, 1int,
{
    match branches {
        None => ContextModel::Failed(
            issue(IssueKind::AutoRestrictNotInCase, seq![], span.pair()),
        ),
        Some(all) => if auto_restricts(all) > 1 {
            ContextModel::Failed(issue(IssueKind::MultipleAutoRestrict, seq![], span.pair()))
        } else {
            ContextModel::Remainder(
                node,
                other_nodes(all, node),
                span,
                Box::new(part_plan(s, expr, context)),
            )
        },
    }
}

/// How the contexts inside each of several expressions are found.
pub open spec fn context_plans(
    s: System,
    v: Vec<Expr>,
    context: Seq<Seq<char>>,
    branches: Option<Seq<Expr>>,
) -> Seq<ContextModel>
    decreases v, 0int,
{
    Seq::new(
        v@.len(),
        |i: int|
            if 0 <= i < v@.len() {
                context_plan(s, v@[i], context, branches)
            } else {
                ContextModel::Nothing
            },
    )
}

/// How the context of an expression, and those inside it, are found. `branches` is that of the
/// case that the expression is a branch of.
pub open spec fn context_plan(
    s: System,
    e: Expr,
    context: Seq<Seq<char>>,
    branches: Option<Seq<Expr>>,
) -> ContextModel
    decreases e, 0int,
{
    match e.kind {
        ExprKind::AutoRestrict { expr } => auto_restrict_plan(
            s,
            e.node,
            e.span,
            expr,
            context,
            branches,
        ),
        _ => ContextModel::Narrow(
            e.node,
            e.span,
            Box::new(
                match e.kind {
                    ExprKind::Binary { operator, lhs, rhs } => ContextModel::Each(
                        seq![part_plan(s, lhs, context), part_plan(s, rhs, context)],
                    ),
                    ExprKind::Unary { operator, operand } => part_plan(s, operand, context),
                    ExprKind::Paren { inner } => part_plan(s, inner, context),
                    ExprKind::MultiArg { operator, args } => ContextModel::Each(
                        context_plans(s, args, context, None),
                    ),
                    ExprKind::If { cond, then_branch, else_branch } => ContextModel::Each(
                        seq![
                            part_plan(s, cond, context),
                            part_plan(s, then_branch, context),
                            part_plan(s, else_branch, context),
                        ],
                    ),
                    ExprKind::Case { branches } => ContextModel::Each(
                        context_plans(s, branches, context, Some(branches@)),
                    ),
                    ExprKind::Restrict { domain, expr } => restrict_plan(
                        s,
                        domain,
                        expr,
                        e.span,
                        context,
                    ),
                    ExprKind::Dependence { function, expr } => dependence_plan(
                        s,
                        function,
                        expr,
                        e.span,
                        context,
                    ),
                    ExprKind::Select { relation, expr } => select_plan(
                        s,
                        relation,
                        expr,
                        e.span,
                        context,
                    ),
                    ExprKind::Reduce { projection, body } => reduce_plan(
                        s,
                        projection,
                        body,
                        e.span,
                        context,
                    ),
                    ExprKind::Convolution { kernel_domain, kernel, data } => ContextModel::Failed(
                        not_supported("convolution context-domain inference"@, e.span),
                    ),
                    _ => ContextModel::Nothing,
                },
            ),
        ),
    }
}

pub open spec fn branch_view(branches: Option<&Vec<Expr>>) -> Option<Seq<Expr>> {
    match branches {
        Some(b) => Some(b@),
        None => None,
    }
}

fn meet(a: SetTerm, b: SetTerm, c: SetTerm, at: Span) -> (r: SetTerm)
    ensures
        r@ == SetModel::Meet(Box::new(a@), Box::new(b@), Box::new(c@), at),
{
    SetTerm::Meet { first: Box::new(a), second: Box::new(b), third: Box::new(c), at }
}

fn one_after_another(first: Vec<Value>, second: Vec<Value>) -> (r: Vec<Value>)
    ensures
        value_models(r) == value_models(first) + value_models(second),
{
    let mut all = first;
    let mut rest = second;
    all.append(&mut rest);
    proof {
        assert(value_models(all) =~= value_models(first) + value_models(second));
    }
    all
}

fn each_of_two(a: ContextPlan, b: ContextPlan) -> (r: ContextPlan)
    ensures
        r@ == ContextModel::Each(seq![a@, b@]),
{
    let mut plans: Vec<ContextPlan> = Vec::new();
    plans.push(a);
    plans.push(b);
    proof {
        assert(context_models(plans) =~= seq![a@, b@]);
    }
    ContextPlan::Each { plans }
}

fn each_of_three(a: ContextPlan, b: ContextPlan, c: ContextPlan) -> (r: ContextPlan)
    ensures
        r@ == ContextModel::Each(seq![a@, b@, c@]),
{
    let mut plans: Vec<ContextPlan> = Vec::new();
    plans.push(a);
    plans.push(b);
    plans.push(c);
    proof {
        assert(context_models(plans) =~= seq![a@, b@, c@]);
    }
    ContextPlan::Each { plans }
}

fn count_auto_restricts(branches: &Vec<Expr>) -> (r: usize)
    ensures
        r == auto_restricts(branches@),
{
    let mut count: usize = 0;
    let mut i: usize = 0;
    while i < branches.len()
        invariant
            i <= branches@.len(),
            count <= i,
            count == auto_restricts(branches@.take(i as int)),
        decreases branches@.len() - i,
    {
        proof {
            let t = branches@.take(i + 1);
            assert(t.drop_last() =~= branches@.take(i as int));
            assert(t.last() == branches@[i as int]);
        }
        match &branches[i].kind {
            ExprKind::AutoRestrict { .. } => {
                count += 1;
            },
            _ => {},
        }
        i += 1;
    }
    proof {
        assert(branches@.take(branches@.len() as int) =~= branches@);
    }
    count
}

fn nodes_except(branches: &Vec<Expr>, node: usize) -> (r: Vec<usize>)
    ensures
        r@ == other_nodes(branches@, node),
{
    let mut out: Vec<usize> = Vec::new();
    let mut i: usize = 0;
    while i < branches.len()
        invariant
            i <= branches@.len(),
            out@ == other_nodes(branches@.take(i as int), node),
        decreases branches@.len() - i,
    {
        proof {
            let t = branches@.take(i + 1);
            assert(t.drop_last() =~= branches@.take(i as int));
            assert(t.last() == branches@[i as int]);
        }
        if branches[i].node != node {
            out.push(branches[i].node);
        }
        i += 1;
    }
    proof {
        assert(branches@.take(branches@.len() as int) =~= branches@);
    }
    out
}

impl<'a> Resolver<'a> {
    pub fn scalar_domain(&self) -> (r: SetTerm)
        requires
            self.wf(),
        ensures
            r@ == scalar_set(*self.system),
    {
        let universe = SetTerm::Read {
            text: self.with_param_prefix("{ [] : }"),
            at: self.system.span,
        };
        combine(SetOp::WithinParams, self.param_domain(), universe, self.system.span)
    }

    pub fn system_body_domain(&self, body: &SystemBody) -> (r: SetTerm)
        requires
            self.wf(),
        ensures
            r@ == body_set(*self.system, *body),
    {
        match &body.guard {
            Some(g) => self.array_domain_in_param_context(g),
            None => {
                let bodies = &self.system.bodies;
                let mut without: usize = 0;
                let mut union: Option<SetTerm> = None;
                let mut i: usize = 0;
                while i < bodies.len()
                    invariant
                        self.wf(),
                        i <= bodies@.len(),
                        bodies@ == self.system.bodies@,
                        without <= i,
                        without == unguarded(bodies@.take(i as int)),
                        match union {
                            None => guards_union(
                                *self.system,
                                bodies@.take(i as int),
                                body.span,
                            ) is None,
                            Some(u) => guards_union(
                                *self.system,
                                bodies@.take(i as int),
                                body.span,
                            ) == Some(u@),
                        },
                    decreases bodies@.len() - i,
                {
                    proof {
                        let t = bodies@.take(i + 1);
                        assert(t.drop_last() =~= bodies@.take(i as int));
                        assert(t.last() == bodies@[i as int]);
                    }
                    match &bodies[i].guard {
                        Some(g) => {
                            let d = self.array_domain_in_param_context(g);
                            union = match union {
                                None => Some(d),
                                Some(u) => Some(combine(SetOp::Union, u, d, body.span)),
                            };
                        },
                        None => {
                            without += 1;
                        },
                    }
                    i += 1;
                }
                proof {
                    assert(bodies@.take(bodies@.len() as int) =~= bodies@);
                }
                if without > 1 {
                    let error = Diagnostic::MultipleUnrestrictedSystemBody {
                        start: body.span.start,
                        end: body.span.end,
                    };
                    match union {
                        None => set_failure(error),
                        Some(u) => SetTerm::Failed { before: one_value(Value::Points(u)), error },
                    }
                } else {
                    match union {
                        None => self.param_domain(),
                        Some(u) => combine(SetOp::Outside, u, self.param_domain(), body.span),
                    }
                }
            },
        }
    }

    pub fn constraints_in_index_context(&self, at: Span, text: &str, context: &Vec<String>) -> (r:
        SetTerm)
        ensures
            r@ == constraints_set(*self.system, at, text@, views(context@)),
    {
        let outer = trim(text);
        let bare = strip(outer.as_str(), '{', '}');
        let body = trim(bare.as_str());
        let tuple = join(context, ",");
        let full = cat5("{ [", tuple.as_str(), "] ", body.as_str(), " }");
        SetTerm::Read { text: self.with_param_prefix(full.as_str()), at }
    }

    pub fn restrict_domain(
        &self,
        domain: &Option<Calc>,
        span: Span,
        context: &Vec<String>,
    ) -> (r: (SetTerm, Vec<String>))
        requires
            self.wf(),
        ensures
            (r.0@, views(r.1@)) == restriction(*self.system, *domain, span, views(context@)),
    {
        proof {
            reveal(restriction);
        }
        let d = match domain {
            None => return (set_failure(missing("restrict domain", span)), copy_all(context)),
            Some(d) => d,
        };
        let text = self.text_of(d);
        let array = match &d.kind {
            CalcKind::ArrayDomain => true,
            _ => false,
        };
        if array || is_bare_colon_domain(text.as_str()) {
            return (
                self.constraints_in_index_context(d.span, text.as_str(), context),
                copy_all(context),
            );
        }
        let names: Vec<String> = match &d.kind {
            CalcKind::Domain => {
                let source = written(d);
                domain_tuple_names(source.as_str())
            },
            _ => Vec::new(),
        };
        proof {
            if !(d.kind is Domain) {
                assert(views(names@) =~= Seq::<Seq<char>>::empty());
            }
            assert(views(names@).len() == names@.len());
            assert(views(context@).len() == context@.len());
        }
        match self.eval_calc_expr(d) {
            Value::Points(p) => {
                if names.len() > 0 && context.len() > 0 && names.len() != context.len() {
                    let error = Diagnostic::RestrictDomainDimensionMismatch {
                        start: span.start,
                        end: span.end,
                    };
                    (
                        SetTerm::Failed { before: one_value(Value::Points(p)), error },
                        copy_all(context),
                    )
                } else if names.len() == 0 {
                    (p, copy_all(context))
                } else {
                    (p, names)
                }
            },
            Value::Failed { before, error } => (
                SetTerm::Failed { before, error },
                copy_all(context),
            ),
            other => {
                let error = invalid_operand("restrict domain", other.kind_name(), d.span);
                (SetTerm::Failed { before: one_value(other), error }, copy_all(context))
            },
        }
    }

    pub fn select_relation(
        &self,
        relation: &Option<Calc>,
        span: Span,
        context: &Vec<String>,
    ) -> (r: (MapTerm, Vec<String>))
        requires
            self.wf(),
        ensures
            (r.0@, views(r.1@)) == selection(*self.system, *relation, span, views(context@)),
    {
        proof {
            reveal(selection);
        }
        let c = match relation {
            None => return (map_failure(missing("select relation", span)), copy_all(context)),
            Some(c) => c,
        };
        let names: Vec<String> = match &c.kind {
            CalcKind::Relation => {
                let source = written(c);
                relation_range_names(source.as_str())
            },
            _ => Vec::new(),
        };
        proof {
            if !(c.kind is Relation) {
                assert(views(names@) =~= Seq::<Seq<char>>::empty());
            }
            assert(views(names@).len() == names@.len());
            assert(views(context@).len() == context@.len());
        }
        match self.eval_calc_expr(c) {
            Value::Relation(m) => {
                let map = if context.len() > 0 {
                    MapTerm::Expect {
                        map: Box::new(m),
                        inputs: context.len(),
                        error: Diagnostic::SelectRelationDimensionMismatch {
                            start: span.start,
                            end: span.end,
                        },
                    }
                } else {
                    m
                };
                if names.len() == 0 {
                    (map, copy_all(context))
                } else {
                    (map, names)
                }
            },
            Value::Failed { before, error } => (
                MapTerm::Failed { before, error },
                copy_all(context),
            ),
            other => {
                let error = invalid_operand("select relation", other.kind_name(), c.span);
                (MapTerm::Failed { before: one_value(other), error }, copy_all(context))
            },
        }
    }

    pub fn reduce_projection(
        &self,
        projection: &Option<Calc>,
        span: Span,
        context: &Vec<String>,
    ) -> (r: (FunctionTerm, Vec<String>))
        requires
            self.wf(),
        ensures
            (r.0@, views(r.1@)) == projection_of(*self.system, *projection, span, views(context@)),
    {
        proof {
            reveal(projection_of);
        }
        let c = match projection {
            None => return (
                FunctionTerm::Failed(missing("reduce projection", span)),
                copy_all(context),
            ),
            Some(c) => c,
        };
        match &c.kind {
            CalcKind::ArrayFunction { elements } => {
                let names = bare_identifier_elements(elements);
                let all = extend_unique(context, &names);
                let text = write_function(&all, context);
                (
                    FunctionTerm::Read {
                        text: self.with_param_prefix(text.as_str()),
                        at: c.span,
                    },
                    all,
                )
            },
            CalcKind::Function { inputs, .. } => {
                let none: Vec<String> = Vec::new();
                proof {
                    assert(views(none@) =~= Seq::<Seq<char>>::empty());
                }
                (self.eval_function(c, &none), copy_all(inputs))
            },
            _ => (
                FunctionTerm::Failed(
                    invalid_operand(
                        "reduce projection",
                        "non-function calculator expression",
                        c.span,
                    ),
                ),
                copy_all(context),
            ),
        }
    }

    pub fn convolution_kernel_names(&self, domain: &Option<Calc>, context: &Vec<String>) -> (r: Vec<
        String,
    >)
        ensures
            views(r@) == kernel_names(*domain, views(context@)),
    {
        match domain {
            Some(c) => match &c.kind {
                CalcKind::RectangularDomain { names } => extend_unique(context, names),
                _ => copy_all(context),
            },
            None => copy_all(context),
        }
    }

    pub fn index_expr_domain(&self, source: &Option<Calc>, span: Span, context: &Vec<String>) -> (r:
        SetTerm)
        requires
            self.wf(),
        ensures
            r@ == index_set(*self.system, *source, span, views(context@)),
    {
        proof {
            reveal(index_set);
        }
        let c = match source {
            None => return set_failure(missing("index source", span)),
            Some(c) => c,
        };
        match &c.kind {
            CalcKind::Function { .. } => SetTerm::FunctionSpace {
                function: self.eval_function(c, context),
                at: span,
            },
            CalcKind::ArrayFunction { .. } => SetTerm::FunctionSpace {
                function: self.eval_function(c, context),
                at: span,
            },
            CalcKind::Polynomial => match self.eval_calc_expr(c) {
                Value::Polynomial(p) => SetTerm::PolynomialSpace { polynomial: p, at: span },
                other => {
                    let error = invalid_operand("val index source", other.kind_name(), span);
                    SetTerm::Failed { before: one_value(other), error }
                },
            },
            CalcKind::ArrayPolynomial => SetTerm::PolynomialSpace {
                polynomial: self.eval_polynomial_in_context(c, context),
                at: span,
            },
            CalcKind::FuzzyFunction | CalcKind::ArrayFuzzyFunction => set_failure(
                unsupported_op("fuzzy index expression", span),
            ),
            _ => set_failure(
                invalid_operand(
                    "index source",
                    "non-function, non-polynomial calculator expression",
                    c.span,
                ),
            ),
        }
    }

    fn part_domain(&self, part: &Option<Box<Expr>>, span: Span, context: &Vec<String>) -> (r:
        SetTerm)
        requires
            self.wf(),
        ensures
            r@ == part_set(*self.system, *part, span, views(context@)),
        decreases part, 0int,
    {
        match part {
            None => set_failure(missing("sub-expression", span)),
            Some(e) => self.expression_domain(e, context),
        }
    }

    fn part_list(&self, part: &Option<Box<Expr>>, context: &Vec<String>) -> (r: Vec<Value>)
        requires
            self.wf(),
        ensures
            value_models(r) == part_values(*self.system, *part, views(context@)),
        decreases part, 0int,
    {
        match part {
            None => {
                let out: Vec<Value> = Vec::new();
                proof {
                    assert(value_models(out) =~= Seq::<ValueModel>::empty());
                }
                out
            },
            Some(e) => one_value(Value::Points(self.expression_domain(e, context))),
        }
    }

    fn restricted(
        &self,
        domain: &Option<Calc>,
        inner: &Option<Box<Expr>>,
        at: Span,
        context: &Vec<String>,
    ) -> (r: SetTerm)
        requires
            self.wf(),
        ensures
            r@ == restrict_set(*self.system, *domain, *inner, at, views(context@)),
        decreases inner, 1int,
    {
        let (set, names) = self.restrict_domain(domain, at, context);
        let part = self.part_domain(inner, at, &names);
        combine(SetOp::Within, set, part, at)
    }

    fn depending(
        &self,
        function: &Option<Calc>,
        inner: &Option<Box<Expr>>,
        at: Span,
        context: &Vec<String>,
    ) -> (r: SetTerm)
        requires
            self.wf(),
        ensures
            r@ == dependence_set(*self.system, *function, *inner, at, views(context@)),
        decreases inner, 1int,
    {
        let part = self.part_domain(inner, at, context);
        match function {
            None => {
                let error = missing("dependence function", at);
                SetTerm::Failed { before: one_value(Value::Points(part)), error }
            },
            Some(f) => SetTerm::Preimage {
                set: Box::new(part),
                function: self.eval_function(f, context),
                mismatch: at,
                at,
            },
        }
    }

    fn reduced(
        &self,
        projection: &Option<Calc>,
        body: &Option<Box<Expr>>,
        at: Span,
        context: &Vec<String>,
    ) -> (r: SetTerm)
        requires
            self.wf(),
        ensures
            r@ == reduce_set(*self.system, *projection, *body, at, views(context@)),
        decreases body, 1int,
    {
        let (function, names) = self.reduce_projection(projection, at, context);
        let part = self.part_domain(body, at, &names);
        SetTerm::Project { function, set: Box::new(part), at }
    }

    fn selected(
        &self,
        relation: &Option<Calc>,
        inner: &Option<Box<Expr>>,
        at: Span,
        context: &Vec<String>,
    ) -> (r: SetTerm)
        requires
            self.wf(),
        ensures
            r@ == select_set(*self.system, *relation, *inner, at, views(context@)),
        decreases inner, 1int,
    {
        let (map, names) = self.select_relation(relation, at, context);
        let part = self.part_domain(inner, at, &names);
        SetTerm::Select { relation: Box::new(map), set: Box::new(part), at }
    }

    fn named_domain(&self, name: &Option<String>) -> (r: SetTerm)
        requires
            self.wf(),
        ensures
            r@ == variable_set(*self.system, text_or_none(*name), Seq::empty()),
    {
        match name {
            Some(n) => self.variable_domain(n.as_str()),
            None => {
                proof {
                    reveal_strlit("");
                    assert(""@ =~= Seq::<char>::empty());
                }
                self.variable_domain("")
            },
        }
    }

    fn fold_domains(
        &self,
        op: SetOp,
        v: &Vec<Expr>,
        what: &str,
        at: Span,
        context: &Vec<String>,
    ) -> (r: SetTerm)
        requires
            self.wf(),
        ensures
            r@ == several_set(
                op,
                expression_sets(*self.system, *v, views(context@)),
                what@,
                at,
            ),
        decreases v, 0int,
    {
        if v.len() == 0 {
            return set_failure(missing(what, at));
        }
        let ghost sets = expression_sets(*self.system, *v, views(context@));
        let mut acc = self.expression_domain(&v[0], context);
        let mut i: usize = 1;
        while i < v.len()
            invariant
                self.wf(),
                1 <= i <= v@.len(),
                sets == expression_sets(*self.system, *v, views(context@)),
                sets.len() == v@.len(),
                acc@ == folded(op, sets.take(i as int), at),
            decreases v@.len() - i,
        {
            proof {
                let t = sets.take(i + 1);
                assert(t.drop_last() =~= sets.take(i as int));
                assert(t.last() == sets[i as int]);
            }
            let d = self.expression_domain(&v[i], context);
            acc = combine(op, acc, d, at);
            i += 1;
        }
        proof {
            assert(sets.take(v@.len() as int) =~= sets);
        }
        acc
    }

    /// Where an operator, a conditional or a case is defined.
    #[verifier::rlimit(50)]
    fn operator_domain(&self, expr: &Expr, context: &Vec<String>) -> (r: SetTerm)
        requires
            self.wf(),
            expr.kind is Binary || expr.kind is MultiArg || expr.kind is Case || expr.kind is If,
        ensures
            SetModel::Record(expr.node, Box::new(r@)) == expression_set(
                *self.system,
                *expr,
                views(context@),
            ),
        decreases expr, 0int,
    {
        let at = expr.span;
        match &expr.kind {
            ExprKind::Binary { operator, lhs, rhs } => {
                let l = self.part_domain(lhs, at, context);
                let r = self.part_domain(rhs, at, context);
                combine(SetOp::Intersect, l, r, at)
            },
            ExprKind::MultiArg { operator, args } => self.fold_domains(
                SetOp::Intersect,
                args,
                "argument",
                at,
                context,
            ),
            ExprKind::Case { branches } => self.fold_domains(
                SetOp::Union,
                branches,
                "case branch",
                at,
                context,
            ),
            ExprKind::If { cond, then_branch, else_branch } => {
                let a = self.part_domain(cond, at, context);
                let b = self.part_domain(then_branch, at, context);
                let c = self.part_domain(else_branch, at, context);
                meet(a, b, c, at)
            },
            _ => self.scalar_domain(),
        }
    }

    /// Where an expression that changes the index names is defined.
    #[verifier::rlimit(50)]
    fn reindexed_domain(&self, expr: &Expr, context: &Vec<String>) -> (r: SetTerm)
        requires
            self.wf(),
            expr.kind is Restrict || expr.kind is Dependence || expr.kind is Reduce
                || expr.kind is Select || expr.kind is Convolution,
        ensures
            SetModel::Record(expr.node, Box::new(r@)) == expression_set(
                *self.system,
                *expr,
                views(context@),
            ),
        decreases expr, 0int,
    {
        let at = expr.span;
        match &expr.kind {
            ExprKind::Restrict { domain, expr: inner } => self.restricted(
                domain,
                inner,
                at,
                context,
            ),
            ExprKind::Dependence { function, expr: inner } => self.depending(
                function,
                inner,
                at,
                context,
            ),
            ExprKind::Reduce { projection, body } => self.reduced(projection, body, at, context),
            ExprKind::Select { relation, expr: inner } => self.selected(
                relation,
                inner,
                at,
                context,
            ),
            ExprKind::Convolution { kernel_domain, kernel, data } => {
                let names = self.convolution_kernel_names(kernel_domain, context);
                let first = self.part_list(kernel, &names);
                let second = self.part_list(data, &names);
                SetTerm::Failed {
                    before: one_after_another(first, second),
                    error: unsupported_op("convolution expression-domain inference", at),
                }
            },
            _ => self.scalar_domain(),
        }
    }

    /// Where an expression is defined, and, inside it, every part of it.
    #[verifier::rlimit(50)]
    pub fn expression_domain(&self, expr: &Expr, context: &Vec<String>) -> (r: SetTerm)
        requires
            self.wf(),
        ensures
            r@ == expression_set(*self.system, *expr, views(context@)),
        decreases expr, 1int,
    {
        let at = expr.span;
        let set = match &expr.kind {
            ExprKind::Bool | ExprKind::Int | ExprKind::Real => self.scalar_domain(),
            ExprKind::Variable { name } => self.named_domain(name),
            ExprKind::Index { source } => self.index_expr_domain(source, at, context),
            ExprKind::Unary { operator, operand } => self.part_domain(operand, at, context),
            ExprKind::Paren { inner } => self.part_domain(inner, at, context),
            ExprKind::AutoRestrict { expr: inner } => self.part_domain(inner, at, context),
            ExprKind::Binary { .. } => self.operator_domain(expr, context),
            ExprKind::MultiArg { .. } => self.operator_domain(expr, context),
            ExprKind::Case { .. } => self.operator_domain(expr, context),
            ExprKind::If { .. } => self.operator_domain(expr, context),
            ExprKind::Restrict { .. } => self.reindexed_domain(expr, context),
            ExprKind::Dependence { .. } => self.reindexed_domain(expr, context),
            ExprKind::Reduce { .. } => self.reindexed_domain(expr, context),
            ExprKind::Select { .. } => self.reindexed_domain(expr, context),
            ExprKind::Convolution { .. } => self.reindexed_domain(expr, context),
        };
        SetTerm::Record { node: expr.node, set: Box::new(set) }
    }

    fn part_context(&self, part: &Option<Box<Expr>>, context: &Vec<String>) -> (r: ContextPlan)
        requires
            self.wf(),
        ensures
            r@ == part_plan(*self.system, *part, views(context@)),
        decreases part, 0int,
    {
        match part {
            None => ContextPlan::Nothing,
            Some(e) => self.context_domain(e, context, None),
        }
    }

    fn restricted_context(
        &self,
        domain: &Option<Calc>,
        inner: &Option<Box<Expr>>,
        at: Span,
        context: &Vec<String>,
    ) -> (r: ContextPlan)
        requires
            self.wf(),
        ensures
            r@ == restrict_plan(*self.system, *domain, *inner, at, views(context@)),
        decreases inner, 1int,
    {
        match inner {
            None => ContextPlan::Nothing,
            Some(_) => {
                let (set, names) = self.restrict_domain(domain, at, context);
                ContextPlan::After { set, then: Box::new(self.part_context(inner, &names)) }
            },
        }
    }

    fn depending_context(
        &self,
        function: &Option<Calc>,
        inner: &Option<Box<Expr>>,
        at: Span,
        context: &Vec<String>,
    ) -> (r: ContextPlan)
        requires
            self.wf(),
        ensures
            r@ == dependence_plan(*self.system, *function, *inner, at, views(context@)),
        decreases inner, 1int,
    {
        match function {
            None => ContextPlan::Nothing,
            Some(f) => ContextPlan::Forward {
                function: self.eval_function(f, context),
                at,
                then: Box::new(self.part_context(inner, context)),
            },
        }
    }

    fn selected_context(
        &self,
        relation: &Option<Calc>,
        inner: &Option<Box<Expr>>,
        at: Span,
        context: &Vec<String>,
    ) -> (r: ContextPlan)
        requires
            self.wf(),
        ensures
            r@ == select_plan(*self.system, *relation, *inner, at, views(context@)),
        decreases inner, 1int,
    {
        let (map, names) = self.select_relation(relation, at, context);
        ContextPlan::Across {
            relation: map,
            at,
            then: Box::new(self.part_context(inner, &names)),
        }
    }

    fn reduced_context(
        &self,
        projection: &Option<Calc>,
        body: &Option<Box<Expr>>,
        at: Span,
        context: &Vec<String>,
    ) -> (r: ContextPlan)
        requires
            self.wf(),
        ensures
            r@ == reduce_plan(*self.system, *projection, *body, at, views(context@)),
        decreases body, 1int,
    {
        let (function, names) = self.reduce_projection(projection, at, context);
        ContextPlan::Back { function, at, then: Box::new(self.part_context(body, &names)) }
    }

    fn each_argument(&self, v: &Vec<Expr>, context: &Vec<String>) -> (r: Vec<ContextPlan>)
        requires
            self.wf(),
        ensures
            context_models(r) == context_plans(*self.system, *v, views(context@), None),
        decreases v, 0int,
    {
        let mut out: Vec<ContextPlan> = Vec::new();
        let ghost target = context_plans(*self.system, *v, views(context@), None);
        let mut i: usize = 0;
        while i < v.len()
            invariant
                self.wf(),
                i <= v@.len(),
                target == context_plans(*self.system, *v, views(context@), None),
                out@.len() == i,
                forall|j: int| 0 <= j < i ==> (#[trigger] out@[j])@ == target[j],
            decreases v@.len() - i,
        {
            let p = self.context_domain(&v[i], context, None);
            out.push(p);
            i += 1;
        }
        proof {
            assert(context_models(out) =~= target);
        }
        out
    }

    fn each_branch(&self, v: &Vec<Expr>, context: &Vec<String>) -> (r: Vec<ContextPlan>)
        requires
            self.wf(),
        ensures
            context_models(r) == context_plans(*self.system, *v, views(context@), Some(v@)),
        decreases v, 0int,
    {
        let mut out: Vec<ContextPlan> = Vec::new();
        let ghost target = context_plans(*self.system, *v, views(context@), Some(v@));
        let mut i: usize = 0;
        while i < v.len()
            invariant
                self.wf(),
                i <= v@.len(),
                target == context_plans(*self.system, *v, views(context@), Some(v@)),
                out@.len() == i,
                forall|j: int| 0 <= j < i ==> (#[trigger] out@[j])@ == target[j],
            decreases v@.len() - i,
        {
            let p = self.context_domain(&v[i], context, Some(v));
            out.push(p);
            i += 1;
        }
        proof {
            assert(context_models(out) =~= target);
        }
        out
    }

    /// How the context of an expression, and those inside it, are found.
    #[verifier::rlimit(50)]
    pub fn context_domain(
        &self,
        expr: &Expr,
        context: &Vec<String>,
        case_branches: Option<&Vec<Expr>>,
    ) -> (r: ContextPlan)
        requires
            self.wf(),
        ensures
            r@ == context_plan(
                *self.system,
                *expr,
                views(context@),
                branch_view(case_branches),
            ),
        decreases expr, 1int,
    {
        let at = expr.span;
        let then = match &expr.kind {
            ExprKind::AutoRestrict { expr: inner } => {
                return self.auto_restrict_context(expr.node, at, inner, context, case_branches);
            },
            ExprKind::Unary { operator, operand } => self.part_context(operand, context),
            ExprKind::Paren { inner } => self.part_context(inner, context),
            ExprKind::Binary { .. } => self.operator_context(expr, context, case_branches),
            ExprKind::MultiArg { .. } => self.operator_context(expr, context, case_branches),
            ExprKind::Case { .. } => self.operator_context(expr, context, case_branches),
            ExprKind::If { .. } => self.operator_context(expr, context, case_branches),
            ExprKind::Restrict { .. } => self.reindexed_context(expr, context, case_branches),
            ExprKind::Dependence { .. } => self.reindexed_context(expr, context, case_branches),
            ExprKind::Reduce { .. } => self.reindexed_context(expr, context, case_branches),
            ExprKind::Select { .. } => self.reindexed_context(expr, context, case_branches),
            ExprKind::Convolution { .. } => ContextPlan::Failed(
                unsupported_op("convolution context-domain inference", at),
            ),
            ExprKind::Variable { .. } => ContextPlan::Nothing,
            ExprKind::Index { .. } => ContextPlan::Nothing,
            ExprKind::Bool | ExprKind::Int | ExprKind::Real => ContextPlan::Nothing,
        };
        ContextPlan::Narrow { node: expr.node, at, then: Box::new(then) }
    }

    /// How the contexts inside an operator, a conditional or a case are found.
    #[verifier::rlimit(50)]
    fn operator_context(
        &self,
        expr: &Expr,
        context: &Vec<String>,
        case_branches: Option<&Vec<Expr>>,
    ) -> (r: ContextPlan)
        requires
            self.wf(),
            expr.kind is Binary || expr.kind is MultiArg || expr.kind is Case || expr.kind is If,
        ensures
            ContextModel::Narrow(expr.node, expr.span, Box::new(r@)) == context_plan(
                *self.system,
                *expr,
                views(context@),
                branch_view(case_branches),
            ),
        decreases expr, 0int,
    {
        match &expr.kind {
            ExprKind::Binary { operator, lhs, rhs } => {
                let l = self.part_context(lhs, context);
                let r = self.part_context(rhs, context);
                each_of_two(l, r)
            },
            ExprKind::MultiArg { operator, args } => ContextPlan::Each {
                plans: self.each_argument(args, context),
            },
            ExprKind::If { cond, then_branch, else_branch } => {
                let a = self.part_context(cond, context);
                let b = self.part_context(then_branch, context);
                let c = self.part_context(else_branch, context);
                each_of_three(a, b, c)
            },
            ExprKind::Case { branches } => ContextPlan::Each {
                plans: self.each_branch(branches, context),
            },
            _ => ContextPlan::Nothing,
        }
    }

    /// How the contexts inside an expression that changes the index names are found.
    #[verifier::rlimit(50)]
    fn reindexed_context(
        &self,
        expr: &Expr,
        context: &Vec<String>,
        case_branches: Option<&Vec<Expr>>,
    ) -> (r: ContextPlan)
        requires
            self.wf(),
            expr.kind is Restrict || expr.kind is Dependence || expr.kind is Reduce
                || expr.kind is Select,
        ensures
            ContextModel::Narrow(expr.node, expr.span, Box::new(r@)) == context_plan(
                *self.system,
                *expr,
                views(context@),
                branch_view(case_branches),
            ),
        decreases expr, 0int,
    {
        let at = expr.span;
        match &expr.kind {
            ExprKind::Restrict { domain, expr: inner } => self.restricted_context(
                domain,
                inner,
                at,
                context,
            ),
            ExprKind::Dependence { function, expr: inner } => self.depending_context(
                function,
                inner,
                at,
                context,
            ),
            ExprKind::Select { relation, expr: inner } => self.selected_context(
                relation,
                inner,
                at,
                context,
            ),
            ExprKind::Reduce { projection, body } => self.reduced_context(
                projection,
                body,
                at,
                context,
            ),
            _ => ContextPlan::Nothing,
        }
    }

    /// How the context of an auto-restrict is found: it takes what the other branches leave.
    fn auto_restrict_context(
        &self,
        node: usize,
        at: Span,
        inner: &Option<Box<Expr>>,
        context: &Vec<String>,
        case_branches: Option<&Vec<Expr>>,
    ) -> (r: ContextPlan)
        requires
            self.wf(),
        ensures
            r@ == auto_restrict_plan(
                *self.system,
                node,
                at,
                *inner,
                views(context@),
                branch_view(case_branches),
            ),
        decreases inner, 1int,
    {
        match case_branches {
            None => ContextPlan::Failed(
                Diagnostic::AutoRestrictNotInCase { start: at.start, end: at.end },
            ),
            Some(all) => if count_auto_restricts(all) > 1 {
                ContextPlan::Failed(
                    Diagnostic::MultipleAutoRestrict { start: at.start, end: at.end },
                )
            } else {
                ContextPlan::Remainder {
                    node,
                    others: nodes_except(all, node),
                    at,
                    then: Box::new(self.part_context(inner, context)),
                }
            },
        }
    }
}

} // verus!
