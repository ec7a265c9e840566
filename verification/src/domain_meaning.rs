//! Where each kind of expression is defined, in terms of where its parts are, and where each part
//! is needed, in terms of where the whole is.
use crate::context_names::{bare_colon, domain_names, range_names};
use crate::diagnostic::IssueKind;
use crate::domain::{
    auto_restricts, context_plan, context_plans, expression_set, expression_sets, other_nodes,
    projection_of, restriction, scalar_set, selection, several_set,
};
use crate::failure::{first_plan_failure, plan_failure};
use crate::function::function_value;
use crate::meaning::{
    a_case_needs_one_branch, a_dependence_is_defined_where_it_leads,
    a_reduction_is_defined_at_projections, a_restriction_is_defined_within_its_set,
    a_selection_is_defined_where_it_leads, all_known, image, kept, kept_by_all,
    operators_need_every_operand, pairs, params_occur, points, Point, Reading,
};
use crate::polyhedral::{ContextModel, SetOp};
use crate::resolve::{calc_value, param_set, source_text, text_in, variable_set};
use crate::syntax::{Calc, Expr, ExprKind, Span, System};
use crate::text::{joined, views};
use crate::walk::is_part;
use vstd::prelude::*;

verus! {

/// The expression has a value at the point.
pub open spec fn is_defined(
    s: System,
    e: Expr,
    names: Seq<Seq<char>>,
    r: Reading,
    p: Point,
) -> bool {
    points(expression_set(s, e, names), r).contains(p)
}

/// The part is there and has a value at the point.
pub open spec fn part_is_defined(
    s: System,
    part: Option<Box<Expr>>,
    names: Seq<Seq<char>>,
    r: Reading,
    p: Point,
) -> bool {
    part matches Some(x) && is_defined(s, *x, names, r, p)
}

proof fn lemma_arguments(s: System, e: Expr, names: Seq<Seq<char>>, r: Reading, p: Point)
    requires
        e.kind is MultiArg,
    ensures
        is_defined(s, e, names, r, p) <==> e.kind->MultiArg_args@.len() > 0 && forall|i: int|
            0 <= i < e.kind->MultiArg_args@.len() ==> is_defined(
                s,
                #[trigger] e.kind->MultiArg_args@[i],
                names,
                r,
                p,
            ),
{
    let args = e.kind->MultiArg_args;
    let sets = expression_sets(s, args, names);
    reveal_with_fuel(points, 3);
    reveal_with_fuel(expression_set, 3);
    assert(points(expression_set(s, e, names), r) == points(
        several_set(SetOp::Intersect, sets, "argument"@, e.span),
        r,
    ));
    if args@.len() > 0 {
        operators_need_every_operand(sets, "argument"@, e.span, r, p);
        assert forall|i: int| 0 <= i < args@.len() implies (#[trigger] points(sets[i], r)).contains(p)
            == is_defined(s, args@[i], names, r, p) by {}
        if is_defined(s, e, names, r, p) {
            assert forall|i: int| 0 <= i < args@.len() implies is_defined(
                s,
                #[trigger] args@[i],
                names,
                r,
                p,
            ) by {
                assert(points(sets[i], r).contains(p));
            }
        } else {
            let i = choose|i: int|
                0 <= i < sets.len() && !(#[trigger] points(sets[i], r)).contains(p);
            assert(!is_defined(s, args@[i], names, r, p));
        }
    }
}

/// An operator has a value where all its operands have one, a conditional where its condition and
/// both its branches have one, and a case where some branch has one. A restriction has one within
/// its set, a dependence at the points that lead to one, a selection at the points that are related
/// to one, and a reduction at the points that its body's points project to.
pub proof fn an_expression_is_defined_where_its_parts_are(
    s: System,
    e: Expr,
    names: Seq<Seq<char>>,
    r: Reading,
    p: Point,
)
    ensures
        match e.kind {
            ExprKind::Bool | ExprKind::Int | ExprKind::Real => is_defined(s, e, names, r, p)
                <==> points(scalar_set(s), r).contains(p),
            ExprKind::Variable { name } => name matches Some(n) ==> (is_defined(s, e, names, r, p)
                <==> points(variable_set(s, n@, Seq::empty()), r).contains(p)),
            ExprKind::Unary { operator, operand } => is_defined(s, e, names, r, p)
                <==> part_is_defined(s, operand, names, r, p),
            ExprKind::Paren { inner } => is_defined(s, e, names, r, p) <==> part_is_defined(
                s,
                inner,
                names,
                r,
                p,
            ),
            ExprKind::AutoRestrict { expr } => is_defined(s, e, names, r, p) <==> part_is_defined(
                s,
                expr,
                names,
                r,
                p,
            ),
            ExprKind::Binary { operator, lhs, rhs } => is_defined(s, e, names, r, p)
                <==> part_is_defined(s, lhs, names, r, p) && part_is_defined(s, rhs, names, r, p),
            ExprKind::If { cond, then_branch, else_branch } => is_defined(s, e, names, r, p)
                <==> part_is_defined(s, cond, names, r, p) && part_is_defined(
                s,
                then_branch,
                names,
                r,
                p,
            ) && part_is_defined(s, else_branch, names, r, p),
            ExprKind::MultiArg { operator, args } => is_defined(s, e, names, r, p) <==> args@.len()
                > 0 && forall|i: int|
                0 <= i < args@.len() ==> is_defined(s, #[trigger] args@[i], names, r, p),
            ExprKind::Case { branches } => is_defined(s, e, names, r, p) <==> exists|i: int|
                0 <= i < branches@.len() && is_defined(s, #[trigger] branches@[i], names, r, p),
            ExprKind::Restrict { domain, expr } => is_defined(s, e, names, r, p) <==> points(
                restriction(s, domain, e.span, names).0,
                r,
            ).contains(p) && part_is_defined(
                s,
                expr,
                restriction(s, domain, e.span, names).1,
                r,
                p,
            ),
            ExprKind::Dependence { function, expr } => is_defined(s, e, names, r, p) <==> (function
                matches Some(f) && part_is_defined(
                s,
                expr,
                names,
                r,
                image(function_value(s, f, names), p, r),
            )),
            ExprKind::Select { relation, expr } => is_defined(s, e, names, r, p) <==> exists|
                q: Point,
            |
                #[trigger] pairs(selection(s, relation, e.span, names).0, r).contains((p, q))
                    && part_is_defined(s, expr, selection(s, relation, e.span, names).1, r, q),
            ExprKind::Reduce { projection, body } => is_defined(s, e, names, r, p) <==> exists|
                q: Point,
            |
                #[trigger] part_is_defined(
                    s,
                    body,
                    projection_of(s, projection, e.span, names).1,
                    r,
                    q,
                ) && image(projection_of(s, projection, e.span, names).0, q, r) == p,
            _ => true,
        },
{
    reveal_with_fuel(points, 3);
    reveal_with_fuel(expression_set, 3);
    match e.kind {
        ExprKind::MultiArg { operator, args } => {
            lemma_arguments(s, e, names, r, p);
        },
        ExprKind::Case { branches } => {
            let sets = expression_sets(s, branches, names);
            if branches@.len() > 0 {
                a_case_needs_one_branch(sets, "case branch"@, e.span, r, p);
                if exists|i: int| 0 <= i < sets.len() && (#[trigger] points(sets[i], r)).contains(p) {
                    let i = choose|i: int|
                        0 <= i < sets.len() && (#[trigger] points(sets[i], r)).contains(p);
                    assert(is_defined(s, branches@[i], names, r, p));
                }
                if exists|i: int|
                    0 <= i < branches@.len() && is_defined(s, #[trigger] branches@[i], names, r, p) {
                    let i = choose|i: int|
                        0 <= i < branches@.len() && is_defined(
                            s,
                            #[trigger] branches@[i],
                            names,
                            r,
                            p,
                        );
                    assert(points(sets[i], r).contains(p));
                }
            }
        },
        ExprKind::Restrict { domain, expr } => {
            a_restriction_is_defined_within_its_set(s, domain, expr, e.span, names, r, p);
        },
        ExprKind::Dependence { function, expr } => {
            if let Some(f) = function {
                a_dependence_is_defined_where_it_leads(s, f, expr, e.span, names, r, p);
            }
        },
        ExprKind::Select { relation, expr } => {
            a_selection_is_defined_where_it_leads(s, relation, expr, e.span, names, r, p);
            let (map, inner) = selection(s, relation, e.span, names);
            if is_defined(s, e, names, r, p) {
                let q = choose|q: Point|
                    #[trigger] pairs(map, r).contains((p, q)) && points(
                        crate::domain::part_set(s, expr, e.span, inner),
                        r,
                    ).contains(q);
                assert(part_is_defined(s, expr, inner, r, q));
            }
        },
        ExprKind::Reduce { projection, body } => {
            a_reduction_is_defined_at_projections(s, projection, body, e.span, names, r, p);
            let (f, inner) = projection_of(s, projection, e.span, names);
            let part = crate::domain::part_set(s, body, e.span, inner);
            if is_defined(s, e, names, r, p) {
                let q = choose|q: Point| #[trigger]
                    points(part, r).contains(q) && image(f, q, r) == p;
                assert(part_is_defined(s, body, inner, r, q));
            }
            if exists|q: Point| #[trigger]
                part_is_defined(s, body, inner, r, q) && image(f, q, r) == p {
                let q = choose|q: Point| #[trigger]
                    part_is_defined(s, body, inner, r, q) && image(f, q, r) == p;
                assert(points(part, r).contains(q));
            }
        },
        _ => {},
    }
}

/// The names in scope of the parts of an expression.
pub open spec fn names_inside(s: System, e: Expr, names: Seq<Seq<char>>) -> Seq<Seq<char>> {
    match e.kind {
        ExprKind::Restrict { domain, expr } => restriction(s, domain, e.span, names).1,
        ExprKind::Select { relation, expr } => selection(s, relation, e.span, names).1,
        ExprKind::Reduce { projection, body } => projection_of(s, projection, e.span, names).1,
        _ => names,
    }
}

/// The points at which the parts of an expression are needed, when it is itself needed at `own`.
/// A dependence needs its operand where its function leads to, a selection where its relation leads
/// to, and a reduction needs its body at every point that projects to one. All else needs its parts
/// where it is needed itself.
pub open spec fn needed_inside(
    s: System,
    e: Expr,
    names: Seq<Seq<char>>,
    own: Set<Point>,
    r: Reading,
) -> Set<Point> {
    match e.kind {
        ExprKind::Dependence { function, expr } => match function {
            Some(f) => Set::new(
                |q: Point|
                    exists|p: Point|
                        #[trigger] own.contains(p) && image(function_value(s, f, names), p, r) == q,
            ),
            None => own,
        },
        ExprKind::Select { relation, expr } => {
            let m = pairs(selection(s, relation, e.span, names).0, r);
            Set::new(|q: Point| exists|p: Point| own.contains(p) && #[trigger] m.contains((p, q)))
        },
        ExprKind::Reduce { projection, body } => {
            let f = projection_of(s, projection, e.span, names).0;
            Set::new(|p: Point| own.contains(image(f, p, r)))
        },
        _ => own,
    }
}

/// The branches around the parts of an expression.
pub open spec fn branches_inside(e: Expr) -> Option<Seq<Expr>> {
    match e.kind {
        ExprKind::Case { branches } => Some(branches@),
        _ => None,
    }
}

proof fn lemma_each(
    plans: Seq<ContextModel>,
    from: Set<Point>,
    domains: Map<usize, Set<Point>>,
    r: Reading,
    i: int,
)
    requires
        0 <= i < plans.len(),
        first_plan_failure(plans, from, domains, r) is None,
    ensures
        kept(plans[i], from, domains, r).subset_of(kept_by_all(plans, from, domains, r)),
    decreases plans.len(),
{
    let before = plans.drop_last();
    assert(first_plan_failure(before, from, domains, r) is None);
    if i < before.len() {
        lemma_each(before, from, domains, r, i);
        assert(before[i] == plans[i]);
    }
}

proof fn lemma_inside_is(
    s: System,
    e: Expr,
    names: Seq<Seq<char>>,
    own: Set<Point>,
    r: Reading,
)
    ensures
        match e.kind {
            ExprKind::Dependence { function: Some(f), expr } => needed_inside(s, e, names, own, r)
                == crate::meaning::forward(function_value(s, f, names), own, r),
            ExprKind::Select { relation, expr } => needed_inside(s, e, names, own, r)
                == crate::meaning::across(selection(s, relation, e.span, names).0, own, r),
            ExprKind::Reduce { projection, body } => needed_inside(s, e, names, own, r)
                == crate::meaning::back(projection_of(s, projection, e.span, names).0, own, r),
            _ => true,
        },
{
    match e.kind {
        ExprKind::Dependence { function: Some(f), expr } => {
            assert(needed_inside(s, e, names, own, r) =~= crate::meaning::forward(
                function_value(s, f, names),
                own,
                r,
            ));
        },
        ExprKind::Select { relation, expr } => {
            let map = selection(s, relation, e.span, names).0;
            let m = pairs(map, r);
            let a = needed_inside(s, e, names, own, r);
            let b = crate::meaning::across(map, own, r);
            assert forall|q: Point| a.contains(q) <==> b.contains(q) by {
                if a.contains(q) {
                    let p = choose|p: Point| own.contains(p) && #[trigger] m.contains((p, q));
                    assert(own.contains(p) && m.contains((p, q)));
                }
                if b.contains(q) {
                    let p = choose|p: Point| own.contains(p) && m.contains((p, q));
                    assert(own.contains(p) && m.contains((p, q)));
                }
            }
            assert(a =~= b);
        },
        ExprKind::Reduce { projection, body } => {
            assert(needed_inside(s, e, names, own, r) =~= crate::meaning::back(
                projection_of(s, projection, e.span, names).0,
                own,
                r,
            ));
        },
        _ => {},
    }
}

/// An expression that does not fail is needed where what is around it needs it and it is defined;
/// and whatever is kept for a part of it is kept for it, the part being needed at the points that
/// the expression needs it at.
pub proof fn every_part_is_needed_where_the_whole_needs_it(
    s: System,
    e: Expr,
    names: Seq<Seq<char>>,
    branches: Option<Seq<Expr>>,
    from: Set<Point>,
    domains: Map<usize, Set<Point>>,
    r: Reading,
    x: Expr,
)
    requires
        e.kind !is AutoRestrict,
        e.kind matches ExprKind::Dependence { function, .. } ==> function is Some,
        e.kind !is Convolution,
        domains.dom().contains(e.node),
        plan_failure(context_plan(s, e, names, branches), from, domains, r) is None,
    ensures
        ({
            let all = kept(context_plan(s, e, names, branches), from, domains, r);
            let own = from.intersect(domains[e.node]);
            &&& all.contains((e.node, own))
            &&& is_part(x, e) ==> kept(
                context_plan(s, x, names_inside(s, e, names), branches_inside(e)),
                needed_inside(s, e, names, own, r),
                domains,
                r,
            ).subset_of(all)
        }),
{
    reveal_with_fuel(context_plan, 4);
    let plan = context_plan(s, e, names, branches);
    let own = from.intersect(domains[e.node]);
    let then = *plan->Narrow_2;
    assert(kept(plan, from, domains, r) == kept(then, own, domains, r).insert((e.node, own)));
    assert(plan_failure(then, own, domains, r) is None);
    lemma_inside_is(s, e, names, own, r);
    if is_part(x, e) {
        match e.kind {
            ExprKind::Binary { operator, lhs, rhs } => {
                let plans = then->Each_0;
                if lhs matches Some(l) && *l == x {
                    lemma_each(plans, own, domains, r, 0);
                } else {
                    lemma_each(plans, own, domains, r, 1);
                }
            },
            ExprKind::If { cond, then_branch, else_branch } => {
                let plans = then->Each_0;
                if cond matches Some(l) && *l == x {
                    lemma_each(plans, own, domains, r, 0);
                } else if then_branch matches Some(l) && *l == x {
                    lemma_each(plans, own, domains, r, 1);
                } else {
                    lemma_each(plans, own, domains, r, 2);
                }
            },
            ExprKind::MultiArg { operator, args } => {
                let i = choose|i: int| 0 <= i < args@.len() && args@[i] == x;
                let plans = then->Each_0;
                assert(plans == context_plans(s, args, names, None));
                lemma_each(plans, own, domains, r, i);
            },
            ExprKind::Case { branches: all } => {
                let i = choose|i: int| 0 <= i < all@.len() && all@[i] == x;
                let plans = then->Each_0;
                assert(plans == context_plans(s, all, names, Some(all@)));
                lemma_each(plans, own, domains, r, i);
            },
            ExprKind::Restrict { domain, expr } => {
                let next = *then->After_1;
                assert(next == context_plan(s, x, names_inside(s, e, names), None));
                assert(kept(then, own, domains, r) == kept(next, own, domains, r));
            },
            ExprKind::Dependence { function, expr } => {
                let next = *then->Forward_2;
                assert(next == context_plan(s, x, names, None));
                assert(kept(then, own, domains, r) == kept(
                    next,
                    needed_inside(s, e, names, own, r),
                    domains,
                    r,
                ));
            },
            ExprKind::Select { relation, expr } => {
                let next = *then->Across_2;
                assert(next == context_plan(s, x, names_inside(s, e, names), None));
                assert(kept(then, own, domains, r) == kept(
                    next,
                    needed_inside(s, e, names, own, r),
                    domains,
                    r,
                ));
            },
            ExprKind::Reduce { projection, body } => {
                let next = *then->Back_2;
                assert(next == context_plan(s, x, names_inside(s, e, names), None));
                assert(kept(then, own, domains, r) == kept(
                    next,
                    needed_inside(s, e, names, own, r),
                    domains,
                    r,
                ));
            },
            _ => {
                assert(then == context_plan(s, x, names, None));
            },
        }
    }
}

/// The nodes of the branches that are not `node`.
pub proof fn the_other_branches_are_all_but_one(branches: Seq<Expr>, node: usize, n: usize)
    ensures
        other_nodes(branches, node).contains(n) <==> n != node && exists|i: int|
            0 <= i < branches.len() && (#[trigger] branches[i]).node == n,
    decreases branches.len(),
{
    if branches.len() > 0 {
        let before = branches.drop_last();
        let nodes = other_nodes(before, node);
        let last = branches.last();
        the_other_branches_are_all_but_one(before, node, n);
        assert(branches[branches.len() - 1] == last);
        if last.node != node {
            crate::walk::lemma_in_sum(nodes, seq![last.node], n);
            assert(nodes.push(last.node) =~= nodes + seq![last.node]);
            assert(seq![last.node][0] == last.node);
        }
        if exists|i: int| 0 <= i < before.len() && (#[trigger] before[i]).node == n {
            let i = choose|i: int| 0 <= i < before.len() && (#[trigger] before[i]).node == n;
            assert(branches[i].node == n);
        }
        if exists|i: int| 0 <= i < branches.len() && (#[trigger] branches[i]).node == n {
            let i = choose|i: int| 0 <= i < branches.len() && (#[trigger] branches[i]).node == n;
            if i < before.len() {
                assert(before[i].node == n);
            }
        }
    }
}

/// The points that the other branches of a case leave to the auto-restrict `e`.
pub open spec fn left_over(
    e: Expr,
    branches: Seq<Expr>,
    from: Set<Point>,
    domains: Map<usize, Set<Point>>,
) -> Set<Point> {
    Set::new(
        |p: Point|
            from.contains(p) && domains[e.node].contains(p) && forall|i: int|
                0 <= i < branches.len() && (#[trigger] branches[i]).node != e.node
                    ==> !domains[branches[i].node].contains(p),
    )
}

/// An auto-restrict that does not fail is needed at the points that the other branches of its case
/// leave over, and what is inside it likewise. It fails outside a case, and beside another one.
pub proof fn an_auto_restrict_is_needed_where_the_others_are_not(
    s: System,
    e: Expr,
    names: Seq<Seq<char>>,
    branches: Option<Seq<Expr>>,
    from: Set<Point>,
    domains: Map<usize, Set<Point>>,
    r: Reading,
    x: Expr,
)
    requires
        e.kind is AutoRestrict,
        domains.dom().contains(e.node),
        branches matches Some(all) ==> forall|i: int|
            0 <= i < all.len() ==> domains.dom().contains((#[trigger] all[i]).node),
    ensures
        branches is None ==> (plan_failure(
            context_plan(s, e, names, branches),
            from,
            domains,
            r,
        ) matches Some(i) && i.kind == IssueKind::AutoRestrictNotInCase),
        branches is Some && auto_restricts(branches->0) > 1 ==> (plan_failure(
            context_plan(s, e, names, branches),
            from,
            domains,
            r,
        ) matches Some(i) && i.kind == IssueKind::MultipleAutoRestrict),
        branches is Some && auto_restricts(branches->0) <= 1 && plan_failure(
            context_plan(s, e, names, branches),
            from,
            domains,
            r,
        ) is None ==> {
            let kept_here = kept(context_plan(s, e, names, branches), from, domains, r);
            let own = left_over(e, branches->0, from, domains);
            &&& kept_here.contains((e.node, own))
            &&& is_part(x, e) ==> kept(
                context_plan(s, x, names, None),
                own,
                domains,
                r,
            ).subset_of(kept_here)
        },
{
    if let Some(all) = branches {
        if auto_restricts(all) <= 1 {
            let others = other_nodes(all, e.node);
            assert forall|k: int| 0 <= k < others.len() implies domains.dom().contains(
                #[trigger] others[k],
            ) by {
                assert(others.contains(others[k]));
                the_other_branches_are_all_but_one(all, e.node, others[k]);
            }
            assert(all_known(e.node, others, domains));
            let own = left_over(e, all, from, domains);
            let rest = crate::meaning::remainder(e.node, others, from, domains);
            assert forall|p: Point| own.contains(p) <==> rest.contains(p) by {
                if own.contains(p) {
                    assert forall|k: int| 0 <= k < others.len() implies !domains[
                        #[trigger] others[k]
                    ].contains(p) by {
                        assert(others.contains(others[k]));
                        the_other_branches_are_all_but_one(all, e.node, others[k]);
                        let i = choose|i: int|
                            0 <= i < all.len() && (#[trigger] all[i]).node == others[k];
                        assert(all[i].node != e.node);
                    }
                }
                if rest.contains(p) {
                    assert forall|i: int|
                        0 <= i < all.len() && (#[trigger] all[i]).node != e.node implies !domains[
                    all[i].node].contains(p) by {
                        the_other_branches_are_all_but_one(all, e.node, all[i].node);
                        let k = choose|k: int| 0 <= k < others.len() && others[k] == all[i].node;
                        assert(!domains[others[k]].contains(p));
                    }
                }
            }
            assert(own =~= rest);
            reveal_with_fuel(context_plan, 4);
            let plan = context_plan(s, e, names, branches);
            if plan_failure(plan, from, domains, r) is None {
                let then = *plan->Remainder_3;
                assert(kept(plan, from, domains, r) == kept(then, own, domains, r).insert(
                    (e.node, own),
                ));
                if is_part(x, e) {
                    assert(then == context_plan(s, x, names, None));
                }
            }
        }
    }
}

/// A case holds as many auto-restricts as it has branches of that kind.
pub proof fn auto_restricts_are_counted(branches: Seq<Expr>, i: int, j: int)
    ensures
        0 <= i < j < branches.len() && branches[i].kind is AutoRestrict
            && branches[j].kind is AutoRestrict ==> auto_restricts(branches) > 1,
        0 <= i < branches.len() && branches[i].kind is AutoRestrict ==> auto_restricts(branches)
            >= 1,
    decreases branches.len(),
{
    if branches.len() > 0 {
        let before = branches.drop_last();
        auto_restricts_are_counted(before, i, j);
        if 0 <= i < before.len() {
            assert(before[i] == branches[i]);
        }
        if 0 <= j < before.len() {
            assert(before[j] == branches[j]);
        }
    }
}

/// A literal has a value at the one point without indices, for the parameter values that the system
/// allows.
pub proof fn a_literal_is_defined_for_the_allowed_parameters(s: System, r: Reading, p: Point)
    ensures
        points(scalar_set(s), r).contains(p) <==> (r.set)(
            "["@ + joined(views(s.params@), ","@) + "] -> "@ + "{ [] : }"@,
        ).contains(p) && params_occur(points(param_set(s), r), p.params),
{
    reveal_with_fuel(points, 3);
}

/// A restriction by a set keeps to the points of the set. A tuple of index names in it takes the
/// place of those in scope, if there are as many; constraints without a tuple are about those in
/// scope.
pub proof fn a_restriction_keeps_to_its_set(
    s: System,
    d: Calc,
    span: Span,
    names: Seq<Seq<char>>,
    r: Reading,
    p: Point,
)
    requires
        !(d.kind is ArrayDomain),
        !bare_colon(text_in(s, d)),
        calc_value(s, d, Seq::empty()) is Points,
    ensures
        ({
            let own = domain_names(source_text(d));
            let renamed = d.kind is Domain && own.len() > 0;
            let (set, inside) = restriction(s, Some(d), span, names);
            if renamed && names.len() > 0 && own.len() != names.len() {
                set is Failed && set->Failed_1.kind == IssueKind::RestrictDomainDimensionMismatch
            } else {
                &&& points(set, r).contains(p) <==> points(
                    calc_value(s, d, Seq::empty())->Points_0,
                    r,
                ).contains(p)
                &&& inside == if renamed {
                    own
                } else {
                    names
                }
            }
        }),
{
    reveal(restriction);
}

/// A selection by a relation relates the points that the relation does. The index names inside are
/// those of its second tuple, where it has any.
pub proof fn a_selection_follows_its_relation(
    s: System,
    c: Calc,
    span: Span,
    names: Seq<Seq<char>>,
    r: Reading,
    p: Point,
    q: Point,
)
    requires
        calc_value(s, c, Seq::empty()) is Relation,
    ensures
        ({
            let own = range_names(source_text(c));
            let (map, inside) = selection(s, Some(c), span, names);
            &&& pairs(map, r).contains((p, q)) <==> pairs(
                calc_value(s, c, Seq::empty())->Relation_0,
                r,
            ).contains((p, q))
            &&& inside == if c.kind is Relation && own.len() > 0 {
                own
            } else {
                names
            }
        }),
{
    reveal(selection);
}

} // verus!
