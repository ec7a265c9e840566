//! When the work that terms and plans stand for fails, and with which diagnostic.
//!
//! The polyhedral library may object to any step; its message is then reported at the place of the
//! step. Everything else that can go wrong is decided here.
use crate::completeness::failed_at;
use crate::diagnostic::{issue, Diagnostic, Issue, IssueKind};
use crate::domain::{
    dependence_set, expression_set, expression_sets, folded, part_set, projection_of, reduce_set,
    restrict_set, restriction, select_set, selection,
};
use crate::function::function_value;
use crate::meaning::{across, all_known, back, forward, remainder, Point, Reading};
use crate::polyhedral::{
    combined, ContextModel, FunctionModel, MapModel, MapOp, MapSide, PolynomialModel, SetModel,
    SetOp, ValueModel,
};
use crate::syntax::{Calc, Expr, ExprKind, Span, System};
use vstd::prelude::*;

verus! {

/// How many indices a function takes and how many it gives.
pub open spec fn function_width(f: FunctionModel, r: Reading) -> (nat, nat) {
    match f {
        FunctionModel::Read(text, _) => (r.function_width)(text),
        FunctionModel::Failed(_) => (0, 0),
    }
}

/// How many indices the points of the set have that a term stands for.
pub open spec fn width(t: SetModel, r: Reading) -> nat
    decreases t,
{
    match t {
        SetModel::Read(text, _) => (r.set_width)(text),
        SetModel::Combine(op, lhs, rhs, _) => match op {
            SetOp::Within | SetOp::Outside | SetOp::WithinParams => width(*rhs, r),
            _ => width(*lhs, r),
        },
        SetModel::Meet(a, _, _, _) => width(*a, r),
        SetModel::Change(_, set, _) => width(*set, r),
        SetModel::Side(side, map, _) => match side {
            MapSide::Domain => widths(*map, r).0,
            MapSide::Range => widths(*map, r).1,
        },
        SetModel::Preimage(_, f, _, _) => function_width(f, r).0,
        SetModel::Project(f, _, _) => function_width(f, r).1,
        SetModel::Select(map, _, _) => widths(*map, r).0,
        SetModel::FunctionSpace(f, _) => function_width(f, r).0,
        SetModel::PolynomialSpace(p, _) => (r.polynomial_width)(p.text),
        SetModel::Record(_, set) => width(*set, r),
        SetModel::Failed(_, _) => 0,
        SetModel::Kept(table, node) => (r.kept_width)(table, node),
    }
}

/// How many indices the relation of a term takes and how many it gives.
pub open spec fn widths(t: MapModel, r: Reading) -> (nat, nat)
    decreases t,
{
    match t {
        MapModel::Read(text, _) => (r.relation_width)(text),
        MapModel::Combine(op, lhs, rhs, _) => match op {
            MapOp::ApplyRange => (widths(*lhs, r).0, widths(*rhs, r).1),
            MapOp::FlatRangeProduct => (
                widths(*lhs, r).0,
                widths(*lhs, r).1 + widths(*rhs, r).1,
            ),
            _ => widths(*lhs, r),
        },
        MapModel::Limit(_, map, _, _) => widths(*map, r),
        MapModel::Reverse(map, _) => (widths(*map, r).1, widths(*map, r).0),
        MapModel::Expect(map, _, _) => widths(*map, r),
        MapModel::Failed(_, _) => (0, 0),
        MapModel::Graph(f, _) => function_width(f, r),
        MapModel::Same(set, _) => (width(*set, r), width(*set, r)),
    }
}

/// The library's objection, reported at a place.
pub open spec fn objected(message: Option<Seq<char>>, at: Span) -> Option<Issue> {
    match message {
        Some(m) => Some(failed_at(m, at)),
        None => None,
    }
}

/// The first of two failures, in order.
pub open spec fn first_of(a: Option<Issue>, b: Option<Issue>) -> Option<Issue> {
    match a {
        Some(_) => a,
        None => b,
    }
}

/// A function must give as many indices as the points have that it is to lead to.
pub open spec fn arity_failure(outputs: nat, dims: nat, mismatch: Span) -> Option<Issue> {
    if outputs == dims {
        None
    } else {
        Some(
            issue(IssueKind::IncompatibleContextAndExpressionDomain, seq![], mismatch.pair()),
        )
    }
}

/// A relation must take as many indices as are expected of it.
pub open spec fn inputs_failure(found: nat, inputs: usize, error: Issue) -> Option<Issue> {
    if found == inputs {
        None
    } else {
        Some(error)
    }
}

/// Something must be left for an auto-restrict.
pub open spec fn remainder_failure(empty: bool, at: Span) -> Option<Issue> {
    if empty {
        Some(issue(IssueKind::EmptyAutoRestrict, seq![], at.pair()))
    } else {
        None
    }
}

pub open spec fn function_failure(f: FunctionModel, r: Reading) -> Option<Issue> {
    match f {
        FunctionModel::Read(text, at) => objected((r.function_objection)(text), at),
        FunctionModel::Failed(i) => Some(i),
    }
}

pub open spec fn polynomial_failure(p: PolynomialModel, r: Reading) -> Option<Issue> {
    objected((r.polynomial_objection)(p.text), p.at)
}

/// With what evaluating a term for a set fails, if it does. The parts come first, from left to
/// right.
pub open spec fn failure(t: SetModel, r: Reading) -> Option<Issue>
    decreases t,
{
    match t {
        SetModel::Read(_, at) => objected((r.set_objection)(t), at),
        SetModel::Combine(_, lhs, rhs, at) => first_of(
            failure(*lhs, r),
            first_of(failure(*rhs, r), objected((r.set_objection)(t), at)),
        ),
        SetModel::Meet(a, b, c, at) => first_of(
            failure(*a, r),
            first_of(
                failure(*b, r),
                first_of(failure(*c, r), objected((r.set_objection)(t), at)),
            ),
        ),
        SetModel::Change(_, set, at) => first_of(
            failure(*set, r),
            objected((r.set_objection)(t), at),
        ),
        SetModel::Side(_, map, at) => first_of(
            relation_failure(*map, r),
            objected((r.set_objection)(t), at),
        ),
        SetModel::Preimage(set, f, mismatch, at) => first_of(
            failure(*set, r),
            first_of(
                function_failure(f, r),
                first_of(
                    arity_failure(function_width(f, r).1, width(*set, r), mismatch),
                    objected((r.set_objection)(t), at),
                ),
            ),
        ),
        SetModel::Project(f, set, at) => first_of(
            function_failure(f, r),
            first_of(failure(*set, r), objected((r.set_objection)(t), at)),
        ),
        SetModel::Select(map, set, at) => first_of(
            relation_failure(*map, r),
            first_of(failure(*set, r), objected((r.set_objection)(t), at)),
        ),
        SetModel::FunctionSpace(f, at) => first_of(
            function_failure(f, r),
            objected((r.set_objection)(t), at),
        ),
        SetModel::PolynomialSpace(p, at) => first_of(
            polynomial_failure(p, r),
            objected((r.set_objection)(t), at),
        ),
        SetModel::Record(_, set) => failure(*set, r),
        SetModel::Failed(before, error) => first_of(values_failure(before, r), Some(error)),
        SetModel::Kept(_, _) => None,
    }
}

/// With what evaluating a term for a relation fails, if it does.
pub open spec fn relation_failure(t: MapModel, r: Reading) -> Option<Issue>
    decreases t,
{
    match t {
        MapModel::Read(_, at) => objected((r.relation_objection)(t), at),
        MapModel::Combine(_, lhs, rhs, at) => first_of(
            relation_failure(*lhs, r),
            first_of(relation_failure(*rhs, r), objected((r.relation_objection)(t), at)),
        ),
        MapModel::Limit(_, map, set, at) => first_of(
            relation_failure(*map, r),
            first_of(failure(*set, r), objected((r.relation_objection)(t), at)),
        ),
        MapModel::Reverse(map, at) => first_of(
            relation_failure(*map, r),
            objected((r.relation_objection)(t), at),
        ),
        MapModel::Expect(map, inputs, error) => first_of(
            relation_failure(*map, r),
            inputs_failure(widths(*map, r).0, inputs, error),
        ),
        MapModel::Failed(before, error) => first_of(values_failure(before, r), Some(error)),
        MapModel::Graph(f, at) => first_of(
            function_failure(f, r),
            objected((r.relation_objection)(t), at),
        ),
        MapModel::Same(set, at) => first_of(
            failure(*set, r),
            objected((r.relation_objection)(t), at),
        ),
    }
}

pub open spec fn value_failure(v: ValueModel, r: Reading) -> Option<Issue>
    decreases v,
{
    match v {
        ValueModel::Points(t) => failure(t, r),
        ValueModel::Relation(t) => relation_failure(t, r),
        ValueModel::Function(f) => function_failure(f, r),
        ValueModel::Polynomial(p) => polynomial_failure(p, r),
        ValueModel::Failed(before, error) => first_of(values_failure(before, r), Some(error)),
    }
}

/// With what the first of several values fails that fails.
pub open spec fn values_failure(v: Seq<ValueModel>, r: Reading) -> Option<Issue>
    decreases v,
{
    if v.len() == 0 {
        None
    } else {
        first_of(values_failure(v.drop_last(), r), value_failure(v.last(), r))
    }
}

/// With what the first step of a plan fails that starts from `from`, if it does.
pub open spec fn step_failure(
    plan: ContextModel,
    from: Set<Point>,
    domains: Map<usize, Set<Point>>,
    r: Reading,
) -> Option<Issue> {
    match plan {
        ContextModel::Nothing | ContextModel::Each(_) => None,
        ContextModel::Failed(error) => Some(error),
        ContextModel::Narrow(node, at, _) => if domains.dom().contains(node) {
            objected((r.step_objection)(plan, from), at)
        } else {
            None
        },
        ContextModel::Forward(f, at, _) | ContextModel::Back(f, at, _) => first_of(
            function_failure(f, r),
            objected((r.step_objection)(plan, from), at),
        ),
        ContextModel::Across(map, at, _) => first_of(
            relation_failure(map, r),
            objected((r.step_objection)(plan, from), at),
        ),
        ContextModel::After(set, _) => failure(set, r),
        ContextModel::Remainder(node, others, at, _) => if all_known(node, others, domains) {
            first_of(
                objected((r.step_objection)(plan, from), at),
                remainder_failure(remainder(node, others, from, domains) =~= Set::empty(), at),
            )
        } else {
            None
        },
    }
}

/// With what a plan fails that starts from `from`, if it does.
pub open spec fn plan_failure(
    plan: ContextModel,
    from: Set<Point>,
    domains: Map<usize, Set<Point>>,
    r: Reading,
) -> Option<Issue>
    decreases plan,
{
    if step_failure(plan, from, domains, r) is Some {
        step_failure(plan, from, domains, r)
    } else {
        match plan {
            ContextModel::Nothing | ContextModel::Failed(_) => None,
            ContextModel::Narrow(node, _, then) => if domains.dom().contains(node) {
                plan_failure(*then, from.intersect(domains[node]), domains, r)
            } else {
                None
            },
            ContextModel::Each(plans) => first_plan_failure(plans, from, domains, r),
            ContextModel::Forward(f, _, then) => plan_failure(
                *then,
                forward(f, from, r),
                domains,
                r,
            ),
            ContextModel::Across(map, _, then) => plan_failure(
                *then,
                across(map, from, r),
                domains,
                r,
            ),
            ContextModel::Back(f, _, then) => plan_failure(*then, back(f, from, r), domains, r),
            ContextModel::After(_, then) => plan_failure(*then, from, domains, r),
            ContextModel::Remainder(node, others, _, then) => if all_known(node, others, domains) {
                plan_failure(*then, remainder(node, others, from, domains), domains, r)
            } else {
                None
            },
        }
    }
}

/// With what the first of several plans fails that fails. Each starts from `from`.
pub open spec fn first_plan_failure(
    plans: Seq<ContextModel>,
    from: Set<Point>,
    domains: Map<usize, Set<Point>>,
    r: Reading,
) -> Option<Issue>
    decreases plans,
{
    if plans.len() == 0 {
        None
    } else {
        first_of(
            first_plan_failure(plans.drop_last(), from, domains, r),
            plan_failure(plans.last(), from, domains, r),
        )
    }
}

/// What is wrong with a function that gives `outputs` indices where the points it is to lead to
/// have `dims`.
pub fn check_arity(outputs: u32, dims: u32, mismatch: Span) -> (r: Option<Diagnostic>)
    ensures
        outputs == dims ==> r is None,
        outputs != dims ==> (r matches Some(d) && d@ == issue(
            IssueKind::IncompatibleContextAndExpressionDomain,
            seq![],
            mismatch.pair(),
        )),
        arity_failure(outputs as nat, dims as nat, mismatch) == match r {
            Some(d) => Some(d@),
            None => None,
        },
{
    if outputs == dims {
        None
    } else {
        Some(
            Diagnostic::IncompatibleContextAndExpressionDomain {
                start: mismatch.start,
                end: mismatch.end,
            },
        )
    }
}

/// What is wrong with a relation that takes `found` indices where `inputs` are expected.
pub fn check_inputs(found: u32, inputs: usize, error: &Diagnostic) -> (r: Option<Diagnostic>)
    ensures
        inputs_failure(found as nat, inputs, error@) == match r {
            Some(d) => Some(d@),
            None => None,
        },
{
    if found as usize == inputs {
        None
    } else {
        Some(error.clone())
    }
}

/// What is wrong with an auto-restrict for which nothing is left, where `empty` says so.
pub fn check_remainder(empty: bool, at: Span) -> (r: Option<Diagnostic>)
    ensures
        remainder_failure(empty, at) == match r {
            Some(d) => Some(d@),
            None => None,
        },
{
    if empty {
        Some(Diagnostic::EmptyAutoRestrict { start: at.start, end: at.end })
    } else {
        None
    }
}

/// The polyhedral library's objection to a step, reported at the place of the step.
pub fn library_failure(message: &str, at: Span) -> (r: Diagnostic)
    ensures
        r@ == failed_at(message@, at),
{
    Diagnostic::IslError { message: message.to_owned(), start: at.start, end: at.end }
}

/// The domain of a dependence whose operand and function can be had fails exactly where the function
/// gives another number of indices than the operand's points have, and then because of that; apart
/// from what the library objects to.
pub proof fn a_dependence_fails_exactly_on_arity(
    s: System,
    e: Expr,
    function: Calc,
    expr: Option<Box<Expr>>,
    context: Seq<Seq<char>>,
    r: Reading,
)
    requires
        e.kind == (ExprKind::Dependence { function: Some(function), expr }),
        failure(part_set(s, expr, e.span, context), r) is None,
        function_failure(function_value(s, function, context), r) is None,
    ensures
        ({
            let outputs = function_width(function_value(s, function, context), r).1;
            let dims = width(part_set(s, expr, e.span, context), r);
            let mismatch = issue(
                IssueKind::IncompatibleContextAndExpressionDomain,
                seq![],
                e.span.pair(),
            );
            let found = failure(expression_set(s, e, context), r);
            &&& found == Some(mismatch) <==> outputs != dims
            &&& outputs == dims ==> found == objected(
                (r.set_objection)(dependence_set(s, Some(function), expr, e.span, context)),
                e.span,
            )
        }),
{
    let set = dependence_set(s, Some(function), expr, e.span, context);
    assert(expression_set(s, e, context) == SetModel::Record(e.node, Box::new(set)));
    assert(failure(expression_set(s, e, context), r) == failure(set, r));
}

/// The library objects to nothing.
pub open spec fn quiet(r: Reading) -> bool {
    &&& forall|t: SetModel| #[trigger] (r.set_objection)(t) is None
    &&& forall|t: MapModel| #[trigger] (r.relation_objection)(t) is None
    &&& forall|t: Seq<char>| #[trigger] (r.function_objection)(t) is None
    &&& forall|t: Seq<char>| #[trigger] (r.polynomial_objection)(t) is None
}

/// With what the first of several sets fails that fails.
pub open spec fn sets_failure(sets: Seq<SetModel>, r: Reading) -> Option<Issue>
    decreases sets.len(),
{
    if sets.len() == 0 {
        None
    } else {
        first_of(sets_failure(sets.drop_last(), r), failure(sets.last(), r))
    }
}

proof fn lemma_folded_failure(op: SetOp, sets: Seq<SetModel>, at: Span, r: Reading)
    requires
        quiet(r),
        sets.len() > 0,
    ensures
        failure(folded(op, sets, at), r) == sets_failure(sets, r),
    decreases sets.len(),
{
    if sets.len() == 1 {
        assert(sets_failure(sets.drop_last(), r) is None);
        assert(sets.last() == sets[0]);
    } else {
        lemma_folded_failure(op, sets.drop_last(), at, r);
        let t = combined(op, folded(op, sets.drop_last(), at), sets.last(), at);
        assert(folded(op, sets, at) == t);
        assert((r.set_objection)(t) is None);
    }
}

/// Where the library objects to nothing, an operator fails exactly where a part of it fails, with
/// the failure of the first that does; a dependence fails for its arity too.
pub proof fn an_expression_fails_with_its_first_failing_part(
    s: System,
    e: Expr,
    context: Seq<Seq<char>>,
    r: Reading,
)
    requires
        quiet(r),
    ensures
        ({
            let found = failure(expression_set(s, e, context), r);
            match e.kind {
                ExprKind::Binary { operator, lhs, rhs } => found == first_of(
                    failure(part_set(s, lhs, e.span, context), r),
                    failure(part_set(s, rhs, e.span, context), r),
                ),
                ExprKind::If { cond, then_branch, else_branch } => found == first_of(
                    failure(part_set(s, cond, e.span, context), r),
                    first_of(
                        failure(part_set(s, then_branch, e.span, context), r),
                        failure(part_set(s, else_branch, e.span, context), r),
                    ),
                ),
                ExprKind::MultiArg { operator, args } => args@.len() > 0 ==> found == sets_failure(
                    expression_sets(s, args, context),
                    r,
                ),
                ExprKind::Case { branches } => branches@.len() > 0 ==> found == sets_failure(
                    expression_sets(s, branches, context),
                    r,
                ),
                ExprKind::Restrict { domain, expr } => found == first_of(
                    failure(restriction(s, domain, e.span, context).0, r),
                    failure(
                        part_set(s, expr, e.span, restriction(s, domain, e.span, context).1),
                        r,
                    ),
                ),
                ExprKind::Dependence { function: Some(f), expr } => found == first_of(
                    failure(part_set(s, expr, e.span, context), r),
                    first_of(
                        function_failure(function_value(s, f, context), r),
                        arity_failure(
                            function_width(function_value(s, f, context), r).1,
                            width(part_set(s, expr, e.span, context), r),
                            e.span,
                        ),
                    ),
                ),
                ExprKind::Reduce { projection, body } => found == first_of(
                    function_failure(projection_of(s, projection, e.span, context).0, r),
                    failure(
                        part_set(s, body, e.span, projection_of(s, projection, e.span, context).1),
                        r,
                    ),
                ),
                ExprKind::Select { relation, expr } => found == first_of(
                    relation_failure(selection(s, relation, e.span, context).0, r),
                    failure(
                        part_set(s, expr, e.span, selection(s, relation, e.span, context).1),
                        r,
                    ),
                ),
                _ => true,
            }
        }),
{
    match e.kind {
        ExprKind::Binary { operator, lhs, rhs } => {
            let t = combined(
                SetOp::Intersect,
                part_set(s, lhs, e.span, context),
                part_set(s, rhs, e.span, context),
                e.span,
            );
            assert(expression_set(s, e, context) == SetModel::Record(e.node, Box::new(t)));
            assert((r.set_objection)(t) is None);
            assert(failure(expression_set(s, e, context), r) == failure(t, r));
        },
        ExprKind::If { cond, then_branch, else_branch } => {
            let t = SetModel::Meet(
                Box::new(part_set(s, cond, e.span, context)),
                Box::new(part_set(s, then_branch, e.span, context)),
                Box::new(part_set(s, else_branch, e.span, context)),
                e.span,
            );
            assert(expression_set(s, e, context) == SetModel::Record(e.node, Box::new(t)));
            assert((r.set_objection)(t) is None);
            assert(failure(expression_set(s, e, context), r) == failure(t, r));
        },
        ExprKind::MultiArg { operator, args } => {
            let sets = expression_sets(s, args, context);
            if args@.len() > 0 {
                let t = folded(SetOp::Intersect, sets, e.span);
                assert(expression_set(s, e, context) == SetModel::Record(e.node, Box::new(t)));
                lemma_folded_failure(SetOp::Intersect, sets, e.span, r);
                assert(failure(expression_set(s, e, context), r) == failure(t, r));
            }
        },
        ExprKind::Case { branches } => {
            let sets = expression_sets(s, branches, context);
            if branches@.len() > 0 {
                let t = folded(SetOp::Union, sets, e.span);
                assert(expression_set(s, e, context) == SetModel::Record(e.node, Box::new(t)));
                lemma_folded_failure(SetOp::Union, sets, e.span, r);
                assert(failure(expression_set(s, e, context), r) == failure(t, r));
            }
        },
        ExprKind::Restrict { domain, expr } => {
            let t = restrict_set(s, domain, expr, e.span, context);
            assert(expression_set(s, e, context) == SetModel::Record(e.node, Box::new(t)));
            assert((r.set_objection)(t) is None);
            assert(failure(expression_set(s, e, context), r) == failure(t, r));
        },
        ExprKind::Dependence { function: Some(f), expr } => {
            let t = dependence_set(s, Some(f), expr, e.span, context);
            assert(expression_set(s, e, context) == SetModel::Record(e.node, Box::new(t)));
            assert((r.set_objection)(t) is None);
            assert(failure(expression_set(s, e, context), r) == failure(t, r));
        },
        ExprKind::Reduce { projection, body } => {
            let t = reduce_set(s, projection, body, e.span, context);
            assert(expression_set(s, e, context) == SetModel::Record(e.node, Box::new(t)));
            assert((r.set_objection)(t) is None);
            assert(failure(expression_set(s, e, context), r) == failure(t, r));
        },
        ExprKind::Select { relation, expr } => {
            let t = select_set(s, relation, expr, e.span, context);
            assert(expression_set(s, e, context) == SetModel::Record(e.node, Box::new(t)));
            assert((r.set_objection)(t) is None);
            assert(failure(expression_set(s, e, context), r) == failure(t, r));
        },
        _ => {},
    }
}

} // verus!
