//! What terms stand for, and what follows for the domains and contexts built from them.
//!
//! A text names a set, a relation or a function; which one is up to the polyhedral library that
//! reads it. So everything here holds for every way of reading texts.
use crate::completeness::{
    bodies_report, early_end, empty_bodies, first_failure, says_yes, some_yes, BodiesAnswer,
    BodyAnswer,
};
use crate::domain::{
    body_set, dependence_set, folded, guards_union, part_set, projection_of, reduce_set,
    restrict_set, restriction, select_set, selection, several_set, unguarded,
};
use crate::diagnostic::{issue, IssueKind};
use crate::failure::{first_plan_failure, plan_failure, step_failure};
use crate::function::function_value;
use crate::polyhedral::{
    combined, ContextModel, FunctionModel, MapLimit, MapModel, MapOp, MapSide, SetChange, SetModel,
    SetOp, Table,
};
use crate::resolve::{guard_set, param_set};
use crate::syntax::{Calc, Expr, Span, System, SystemBody};
use vstd::prelude::*;

verus! {

/// A point: a tuple of indices for certain values of the parameters.
pub struct Point {
    pub params: Seq<int>,
    pub indices: Seq<int>,
}

/// A way of reading texts, and of computing what is not spelled out here.
pub struct Reading {
    pub set: spec_fn(Seq<char>) -> Set<Point>,
    pub relation: spec_fn(Seq<char>) -> Set<(Point, Point)>,
    pub function: spec_fn(Seq<char>) -> spec_fn(Point) -> Point,
    pub function_space: spec_fn(Seq<char>) -> Set<Point>,
    pub polynomial_space: spec_fn(Seq<char>) -> Set<Point>,
    pub change: spec_fn(SetChange, Set<Point>) -> Set<Point>,
    pub product: spec_fn(Set<(Point, Point)>, Set<(Point, Point)>) -> Set<(Point, Point)>,
    /// What was kept by node.
    pub kept: spec_fn(Table, usize) -> Set<Point>,
    pub kept_width: spec_fn(Table, usize) -> nat,
    /// How many indices the points of a set have.
    pub set_width: spec_fn(Seq<char>) -> nat,
    /// How many indices a relation, or a function, takes and how many it gives.
    pub relation_width: spec_fn(Seq<char>) -> (nat, nat),
    pub function_width: spec_fn(Seq<char>) -> (nat, nat),
    pub polynomial_width: spec_fn(Seq<char>) -> nat,
    /// What the library objects to in the last step to a set, a relation, a function or a
    /// polynomial, and in the first step of a plan.
    pub set_objection: spec_fn(SetModel) -> Option<Seq<char>>,
    pub relation_objection: spec_fn(MapModel) -> Option<Seq<char>>,
    pub function_objection: spec_fn(Seq<char>) -> Option<Seq<char>>,
    pub polynomial_objection: spec_fn(Seq<char>) -> Option<Seq<char>>,
    pub step_objection: spec_fn(ContextModel, Set<Point>) -> Option<Seq<char>>,
}

/// The function that a term stands for.
pub open spec fn image(f: FunctionModel, p: Point, r: Reading) -> Point {
    match f {
        FunctionModel::Read(text, _) => (r.function)(text)(p),
        FunctionModel::Failed(_) => p,
    }
}

pub open spec fn params_occur(set: Set<Point>, params: Seq<int>) -> bool {
    exists|q: Point| #[trigger] set.contains(q) && q.params == params
}

/// The points of the set that a term stands for.
pub open spec fn points(t: SetModel, r: Reading) -> Set<Point>
    decreases t,
{
    match t {
        SetModel::Read(text, _) => (r.set)(text),
        SetModel::Combine(op, lhs, rhs, _) => {
            let a = points(*lhs, r);
            let b = points(*rhs, r);
            match op {
                SetOp::Union => a.union(b),
                SetOp::Subtract => a.difference(b),
                SetOp::Intersect => a.intersect(b),
                SetOp::Within => b.intersect(a),
                SetOp::Outside => b.difference(a),
                SetOp::IntersectParams => a.filter(|p: Point| params_occur(b, p.params)),
                SetOp::WithinParams => b.filter(|p: Point| params_occur(a, p.params)),
            }
        },
        SetModel::Meet(a, b, c, _) => points(*a, r).intersect(points(*b, r)).intersect(
            points(*c, r),
        ),
        SetModel::Change(change, set, _) => (r.change)(change, points(*set, r)),
        SetModel::Side(side, map, _) => {
            let m = pairs(*map, r);
            match side {
                MapSide::Domain => Set::new(|p: Point| exists|q: Point| m.contains((p, q))),
                MapSide::Range => Set::new(|q: Point| exists|p: Point| m.contains((p, q))),
            }
        },
        SetModel::Preimage(set, f, _, _) => {
            let inner = points(*set, r);
            Set::new(|p: Point| inner.contains(image(f, p, r)))
        },
        SetModel::Project(f, set, _) => {
            let inner = points(*set, r);
            Set::new(|q: Point| exists|p: Point| #[trigger] inner.contains(p) && image(f, p, r) == q)
        },
        SetModel::Select(map, set, _) => {
            let m = pairs(*map, r);
            let inner = points(*set, r);
            Set::new(|p: Point| exists|q: Point| m.contains((p, q)) && inner.contains(q))
        },
        SetModel::FunctionSpace(f, _) => match f {
            FunctionModel::Read(text, _) => (r.function_space)(text),
            FunctionModel::Failed(_) => Set::empty(),
        },
        SetModel::PolynomialSpace(p, _) => (r.polynomial_space)(p.text),
        SetModel::Record(_, set) => points(*set, r),
        SetModel::Failed(_, _) => Set::empty(),
        SetModel::Kept(table, node) => (r.kept)(table, node),
    }
}

/// The pairs of points that the relation of a term relates.
pub open spec fn pairs(t: MapModel, r: Reading) -> Set<(Point, Point)>
    decreases t,
{
    match t {
        MapModel::Read(text, _) => (r.relation)(text),
        MapModel::Combine(op, lhs, rhs, _) => {
            let a = pairs(*lhs, r);
            let b = pairs(*rhs, r);
            match op {
                MapOp::Union => a.union(b),
                MapOp::Subtract => a.difference(b),
                MapOp::Intersect => a.intersect(b),
                MapOp::ApplyRange => Set::new(
                    |x: (Point, Point)|
                        exists|m: Point| a.contains((x.0, m)) && b.contains((m, x.1)),
                ),
                MapOp::FlatRangeProduct => (r.product)(a, b),
            }
        },
        MapModel::Limit(limit, map, set, _) => {
            let a = pairs(*map, r);
            let b = points(*set, r);
            match limit {
                MapLimit::IntersectRange => a.filter(|x: (Point, Point)| b.contains(x.1)),
                MapLimit::SubtractRange => a.filter(|x: (Point, Point)| !b.contains(x.1)),
                MapLimit::IntersectDomain => a.filter(|x: (Point, Point)| b.contains(x.0)),
            }
        },
        MapModel::Reverse(map, _) => {
            let a = pairs(*map, r);
            Set::new(|x: (Point, Point)| a.contains((x.1, x.0)))
        },
        MapModel::Expect(map, _, _) => pairs(*map, r),
        MapModel::Failed(_, _) => Set::empty(),
        MapModel::Graph(f, _) => Set::new(|x: (Point, Point)| image(f, x.0, r) == x.1),
        MapModel::Same(set, _) => {
            let a = points(*set, r);
            Set::new(|x: (Point, Point)| a.contains(x.0) && x.0 == x.1)
        },
    }
}

/// The points outside every one of `others`.
pub open spec fn outside(
    from: Set<Point>,
    others: Seq<usize>,
    domains: Map<usize, Set<Point>>,
) -> Set<Point> {
    from.filter(
        |p: Point|
            forall|i: int| 0 <= i < others.len() ==> !domains[#[trigger] others[i]].contains(p),
    )
}

/// What is left for `node` by the others.
pub open spec fn remainder(
    node: usize,
    others: Seq<usize>,
    from: Set<Point>,
    domains: Map<usize, Set<Point>>,
) -> Set<Point> {
    outside(from, others, domains).intersect(domains[node])
}

/// There is a domain of `node` and of each of the others.
pub open spec fn all_known(
    node: usize,
    others: Seq<usize>,
    domains: Map<usize, Set<Point>>,
) -> bool {
    domains.dom().contains(node) && forall|i: int|
        0 <= i < others.len() ==> domains.dom().contains(#[trigger] others[i])
}

/// The sets that a plan keeps, each with its node, when it starts from `from`. A step that fails
/// keeps nothing, and neither does anything after it.
pub open spec fn kept(
    plan: ContextModel,
    from: Set<Point>,
    domains: Map<usize, Set<Point>>,
    r: Reading,
) -> Set<(usize, Set<Point>)>
    decreases plan,
{
    if step_failure(plan, from, domains, r) is Some {
        Set::empty()
    } else {
        match plan {
            ContextModel::Nothing | ContextModel::Failed(_) => Set::empty(),
            ContextModel::Narrow(node, _, then) => if domains.dom().contains(node) {
                let own = from.intersect(domains[node]);
                kept(*then, own, domains, r).insert((node, own))
            } else {
                Set::empty()
            },
            ContextModel::Each(plans) => kept_by_all(plans, from, domains, r),
            ContextModel::Forward(f, _, then) => kept(*then, forward(f, from, r), domains, r),
            ContextModel::Across(map, _, then) => kept(*then, across(map, from, r), domains, r),
            ContextModel::Back(f, _, then) => kept(*then, back(f, from, r), domains, r),
            ContextModel::After(_, then) => kept(*then, from, domains, r),
            ContextModel::Remainder(node, others, _, then) => if all_known(node, others, domains) {
                let own = remainder(node, others, from, domains);
                kept(*then, own, domains, r).insert((node, own))
            } else {
                Set::empty()
            },
        }
    }
}

/// The points that a function sends the points of a set to.
pub open spec fn forward(f: FunctionModel, from: Set<Point>, r: Reading) -> Set<Point> {
    Set::new(|q: Point| exists|p: Point| #[trigger] from.contains(p) && image(f, p, r) == q)
}

/// The points that a relation relates the points of a set to.
pub open spec fn across(map: MapModel, from: Set<Point>, r: Reading) -> Set<Point> {
    let m = pairs(map, r);
    Set::new(|q: Point| exists|p: Point| from.contains(p) && m.contains((p, q)))
}

/// The points that a function sends into a set.
pub open spec fn back(f: FunctionModel, from: Set<Point>, r: Reading) -> Set<Point> {
    Set::new(|p: Point| from.contains(image(f, p, r)))
}

/// The sets that several plans keep, each of which starts from `from`. After one that fails there
/// is no other.
pub open spec fn kept_by_all(
    plans: Seq<ContextModel>,
    from: Set<Point>,
    domains: Map<usize, Set<Point>>,
    r: Reading,
) -> Set<(usize, Set<Point>)>
    decreases plans,
{
    if plans.len() == 0 {
        Set::empty()
    } else {
        let before = kept_by_all(plans.drop_last(), from, domains, r);
        if first_plan_failure(plans.drop_last(), from, domains, r) is Some {
            before
        } else {
            before.union(kept(plans.last(), from, domains, r))
        }
    }
}

proof fn lemma_all_contexts_lie_in_domains(
    plans: Seq<ContextModel>,
    from: Set<Point>,
    domains: Map<usize, Set<Point>>,
    r: Reading,
    node: usize,
    context: Set<Point>,
)
    requires
        kept_by_all(plans, from, domains, r).contains((node, context)),
    ensures
        domains.dom().contains(node),
        context.subset_of(domains[node]),
    decreases plans,
{
    if plans.len() > 0 {
        if kept(plans.last(), from, domains, r).contains((node, context)) {
            contexts_lie_in_domains(plans.last(), from, domains, r, node, context);
        } else {
            lemma_all_contexts_lie_in_domains(plans.drop_last(), from, domains, r, node, context);
        }
    }
}

/// A value is needed only where it is defined: every context lies in the domain of its node.
pub proof fn contexts_lie_in_domains(
    plan: ContextModel,
    from: Set<Point>,
    domains: Map<usize, Set<Point>>,
    r: Reading,
    node: usize,
    context: Set<Point>,
)
    requires
        kept(plan, from, domains, r).contains((node, context)),
    ensures
        domains.dom().contains(node),
        context.subset_of(domains[node]),
    decreases plan,
{
    match plan {
        ContextModel::Nothing | ContextModel::Failed(_) => {},
        ContextModel::Narrow(n, _, then) => {
            let own = from.intersect(domains[n]);
            if (node, context) != (n, own) {
                contexts_lie_in_domains(*then, own, domains, r, node, context);
            }
        },
        ContextModel::Each(plans) => {
            lemma_all_contexts_lie_in_domains(plans, from, domains, r, node, context);
        },
        ContextModel::Forward(f, _, then) => {
            contexts_lie_in_domains(*then, forward(f, from, r), domains, r, node, context);
        },
        ContextModel::Across(map, _, then) => {
            contexts_lie_in_domains(*then, across(map, from, r), domains, r, node, context);
        },
        ContextModel::Back(f, _, then) => {
            contexts_lie_in_domains(*then, back(f, from, r), domains, r, node, context);
        },
        ContextModel::After(_, then) => {
            contexts_lie_in_domains(*then, from, domains, r, node, context);
        },
        ContextModel::Remainder(n, others, _, then) => {
            let own = remainder(n, others, from, domains);
            if (node, context) != (n, own) {
                contexts_lie_in_domains(*then, own, domains, r, node, context);
            }
        },
    }
}

/// The plan changes no point on its way: nothing in it is reindexed.
pub open spec fn keeps_points(plan: ContextModel) -> bool
    decreases plan,
{
    match plan {
        ContextModel::Narrow(_, _, then) => keeps_points(*then),
        ContextModel::Each(plans) => all_keep_points(plans),
        ContextModel::Forward(_, _, _) | ContextModel::Across(_, _, _) | ContextModel::Back(
            _,
            _,
            _,
        ) => false,
        ContextModel::After(_, then) => keeps_points(*then),
        ContextModel::Remainder(_, _, _, then) => keeps_points(*then),
        _ => true,
    }
}

pub open spec fn all_keep_points(plans: Seq<ContextModel>) -> bool
    decreases plans,
{
    plans.len() == 0 || (all_keep_points(plans.drop_last()) && keeps_points(plans.last()))
}

proof fn lemma_all_contexts_lie_around(
    plans: Seq<ContextModel>,
    from: Set<Point>,
    domains: Map<usize, Set<Point>>,
    r: Reading,
    node: usize,
    context: Set<Point>,
)
    requires
        all_keep_points(plans),
        kept_by_all(plans, from, domains, r).contains((node, context)),
    ensures
        context.subset_of(from),
    decreases plans,
{
    if plans.len() > 0 {
        if kept(plans.last(), from, domains, r).contains((node, context)) {
            contexts_lie_in_the_context_around(plans.last(), from, domains, r, node, context);
        } else {
            lemma_all_contexts_lie_around(plans.drop_last(), from, domains, r, node, context);
        }
    }
}

/// Where nothing is reindexed in between, a value is needed only where what is around it is needed:
/// the context of an expression lies in that of the expression around it.
pub proof fn contexts_lie_in_the_context_around(
    plan: ContextModel,
    from: Set<Point>,
    domains: Map<usize, Set<Point>>,
    r: Reading,
    node: usize,
    context: Set<Point>,
)
    requires
        keeps_points(plan),
        kept(plan, from, domains, r).contains((node, context)),
    ensures
        context.subset_of(from),
    decreases plan,
{
    match plan {
        ContextModel::Narrow(n, _, then) => {
            let own = from.intersect(domains[n]);
            if (node, context) != (n, own) {
                contexts_lie_in_the_context_around(*then, own, domains, r, node, context);
            }
        },
        ContextModel::Each(plans) => {
            lemma_all_contexts_lie_around(plans, from, domains, r, node, context);
        },
        ContextModel::After(_, then) => {
            contexts_lie_in_the_context_around(*then, from, domains, r, node, context);
        },
        ContextModel::Remainder(n, others, _, then) => {
            let own = remainder(n, others, from, domains);
            if (node, context) != (n, own) {
                contexts_lie_in_the_context_around(*then, own, domains, r, node, context);
            }
        },
        _ => {},
    }
}

/// The contexts inside an auto-restrict, which keep to the same points, share nothing with the
/// domains of the other branches. The auto-restrict itself is the first of them. It fails, with the
/// place where it stands, exactly where the others leave nothing.
pub proof fn an_auto_restrict_avoids_the_other_branches(
    node: usize,
    others: Seq<usize>,
    at: Span,
    then: ContextModel,
    from: Set<Point>,
    domains: Map<usize, Set<Point>>,
    r: Reading,
)
    requires
        all_known(node, others, domains),
        (r.step_objection)(ContextModel::Remainder(node, others, at, Box::new(then)), from) is None,
    ensures
        ({
            let plan = ContextModel::Remainder(node, others, at, Box::new(then));
            let own = remainder(node, others, from, domains);
            &&& own.subset_of(from)
            &&& forall|i: int| 0 <= i < others.len() ==> own.disjoint(domains[#[trigger] others[i]])
            &&& forall|p: Point|
                from.contains(p) && domains[node].contains(p) && (forall|i: int|
                    0 <= i < others.len() ==> !domains[#[trigger] others[i]].contains(p))
                    ==> #[trigger] own.contains(p)
            &&& own =~= Set::empty() ==> plan_failure(plan, from, domains, r) == Some(
                issue(IssueKind::EmptyAutoRestrict, seq![], at.pair()),
            ) && kept(plan, from, domains, r) =~= Set::empty()
            &&& !(own =~= Set::empty()) ==> plan_failure(plan, from, domains, r) == plan_failure(
                then,
                own,
                domains,
                r,
            ) && kept(plan, from, domains, r).contains((node, own))
        }),
{
}

/// Sets that are intersected have the points that all of them have.
pub proof fn operators_need_every_operand(
    sets: Seq<SetModel>,
    what: Seq<char>,
    at: Span,
    r: Reading,
    p: Point,
)
    requires
        sets.len() > 0,
    ensures
        points(several_set(SetOp::Intersect, sets, what, at), r).contains(p) <==> forall|i: int|
            0 <= i < sets.len() ==> (#[trigger] points(sets[i], r)).contains(p),
    decreases sets.len(),
{
    if sets.len() > 1 {
        let before = sets.drop_last();
        operators_need_every_operand(before, what, at, r, p);
        assert(folded(SetOp::Intersect, sets, at) == combined(
            SetOp::Intersect,
            folded(SetOp::Intersect, before, at),
            sets.last(),
            at,
        ));
        assert forall|i: int| 0 <= i < before.len() implies points(#[trigger] before[i], r)
            == points(sets[i], r) by {}
        if forall|i: int| 0 <= i < before.len() ==> (#[trigger] points(before[i], r)).contains(p) {
            assert forall|i: int| 0 <= i < sets.len() && points(sets.last(), r).contains(
                p,
            ) implies (#[trigger] points(sets[i], r)).contains(p) by {
                if i < before.len() {
                    assert(points(before[i], r).contains(p));
                }
            }
        } else {
            let k = choose|k: int| 0 <= k < before.len() && !points(before[k], r).contains(p);
            assert(!points(sets[k], r).contains(p));
        }
        assert(points(sets[sets.len() - 1], r) == points(sets.last(), r));
    } else {
        assert(points(several_set(SetOp::Intersect, sets, what, at), r) == points(sets[0], r));
    }
}

/// The branches of a case, taken together, have the points that any of them has.
pub proof fn a_case_needs_one_branch(sets: Seq<SetModel>, what: Seq<char>, at: Span, r: Reading, p: Point)
    requires
        sets.len() > 0,
    ensures
        points(several_set(SetOp::Union, sets, what, at), r).contains(p) <==> exists|i: int|
            0 <= i < sets.len() && (#[trigger] points(sets[i], r)).contains(p),
    decreases sets.len(),
{
    if sets.len() > 1 {
        let before = sets.drop_last();
        a_case_needs_one_branch(before, what, at, r, p);
        assert(folded(SetOp::Union, sets, at) == combined(
            SetOp::Union,
            folded(SetOp::Union, before, at),
            sets.last(),
            at,
        ));
        if exists|i: int| 0 <= i < before.len() && (#[trigger] points(before[i], r)).contains(p) {
            let k = choose|k: int| 0 <= k < before.len() && points(before[k], r).contains(p);
            assert(points(sets[k], r).contains(p));
        }
        if exists|i: int| 0 <= i < sets.len() && (#[trigger] points(sets[i], r)).contains(p) {
            let k = choose|k: int| 0 <= k < sets.len() && points(sets[k], r).contains(p);
            if k < before.len() {
                assert(points(before[k], r).contains(p));
            }
        }
        if points(sets.last(), r).contains(p) {
            assert(points(sets[sets.len() - 1], r).contains(p));
        }
    } else {
        assert(points(several_set(SetOp::Union, sets, what, at), r) == points(sets[0], r));
    }
}

/// A dependence is defined exactly where its function leads into the domain of its operand.
pub proof fn a_dependence_is_defined_where_it_leads(
    s: System,
    function: Calc,
    expr: Option<Box<Expr>>,
    span: Span,
    context: Seq<Seq<char>>,
    r: Reading,
    p: Point,
)
    ensures
        points(dependence_set(s, Some(function), expr, span, context), r).contains(p) <==> points(
            part_set(s, expr, span, context),
            r,
        ).contains(image(function_value(s, function, context), p, r)),
{
}

/// A restriction is defined exactly where its operand is, within the restriction.
pub proof fn a_restriction_is_defined_within_its_set(
    s: System,
    domain: Option<Calc>,
    expr: Option<Box<Expr>>,
    span: Span,
    context: Seq<Seq<char>>,
    r: Reading,
    p: Point,
)
    ensures
        points(restrict_set(s, domain, expr, span, context), r).contains(p) <==> points(
            restriction(s, domain, span, context).0,
            r,
        ).contains(p) && points(
            part_set(s, expr, span, restriction(s, domain, span, context).1),
            r,
        ).contains(p),
{
}

/// A reduction is defined exactly at the projections of the points of its body.
pub proof fn a_reduction_is_defined_at_projections(
    s: System,
    projection: Option<Calc>,
    body: Option<Box<Expr>>,
    span: Span,
    context: Seq<Seq<char>>,
    r: Reading,
    q: Point,
)
    ensures
        points(reduce_set(s, projection, body, span, context), r).contains(q) <==> exists|p: Point|
            #[trigger] points(
                part_set(s, body, span, projection_of(s, projection, span, context).1),
                r,
            ).contains(p) && image(projection_of(s, projection, span, context).0, p, r) == q,
{
    let (f, names) = projection_of(s, projection, span, context);
    let part = part_set(s, body, span, names);
    let inner = points(part, r);
    let set = reduce_set(s, projection, body, span, context);
    assert(set == SetModel::Project(f, Box::new(part), span));
    assert(points(set, r) == Set::new(
        |q: Point| exists|p: Point| #[trigger] inner.contains(p) && image(f, p, r) == q,
    ));
}

proof fn lemma_guards_union(s: System, bodies: Seq<SystemBody>, at: Span, r: Reading, p: Point)
    ensures
        match guards_union(s, bodies, at) {
            Some(u) => points(u, r).contains(p) <==> some_guard(s, bodies, r, p),
            None => !some_guard(s, bodies, r, p),
        },
    decreases bodies.len(),
{
    if bodies.len() > 0 {
        let before = bodies.drop_last();
        lemma_guards_union(s, before, at, r, p);
        if some_guard(s, before, r, p) {
            let i = choose|i: int| 0 <= i < before.len() && #[trigger] lets_through(s, before[i], r, p);
            assert(lets_through(s, bodies[i], r, p));
        }
        if some_guard(s, bodies, r, p) {
            let i = choose|i: int| 0 <= i < bodies.len() && #[trigger] lets_through(s, bodies[i], r, p);
            if i < before.len() {
                assert(lets_through(s, before[i], r, p));
            }
        }
        if lets_through(s, bodies.last(), r, p) {
            assert(lets_through(s, bodies[bodies.len() - 1], r, p));
        }
    }
}

/// The body has a guard, and it lets the parameter values through.
pub open spec fn lets_through(s: System, body: SystemBody, r: Reading, p: Point) -> bool {
    match body.guard {
        Some(g) => points(guard_set(s, g), r).contains(p),
        None => false,
    }
}

pub open spec fn some_guard(s: System, bodies: Seq<SystemBody>, r: Reading, p: Point) -> bool {
    exists|i: int| 0 <= i < bodies.len() && #[trigger] lets_through(s, bodies[i], r, p)
}

/// The body without a guard takes exactly the parameter values of the system that no guard lets
/// through, where it is the only one of its kind.
pub proof fn the_body_without_a_guard_takes_the_rest(
    s: System,
    body: SystemBody,
    r: Reading,
    p: Point,
)
    requires
        body.guard is None,
        unguarded(s.bodies@) <= 1,
    ensures
        points(body_set(s, body), r).contains(p) <==> points(param_set(s), r).contains(p)
            && !some_guard(s, s.bodies@, r, p),
{
    lemma_guards_union(s, s.bodies@, body.span, r, p);
}

/// The points of the first `n` of several sets.
pub open spec fn union_of(sets: Seq<Set<Point>>, n: int) -> Set<Point> {
    Set::new(|p: Point| exists|i: int| 0 <= i < n && (#[trigger] sets[i]).contains(p))
}

/// The sets of several bodies, kept to the parameter values of the system.
pub open spec fn clipped(sets: Seq<Set<Point>>, params: Set<Point>) -> Seq<Set<Point>> {
    sets.map_values(|x: Set<Point>| x.intersect(params))
}

/// The answers for the bodies are the true ones for the given sets.
pub open spec fn bodies_answered(
    a: BodiesAnswer,
    sets: Seq<Set<Point>>,
    params: Set<Point>,
) -> bool {
    let inside = clipped(sets, params);
    &&& a.params
    &&& a.bodies@.len() == sets.len()
    &&& a.overlaps@.len() + 1 == sets.len()
    &&& forall|i: int|
        0 <= i < sets.len() ==> ((#[trigger] a.bodies@[i]) matches BodyAnswer::Resolved {
            empty,
            failure: None,
        } && empty == (sets[i] =~= Set::empty()))
    &&& forall|k: int|
        0 <= k < a.overlaps@.len() ==> a.overlaps@[k] is Ok && says_yes(#[trigger] a.overlaps@[k])
            == !union_of(inside, k + 1).disjoint(inside[k + 1])
    &&& a.missing is Ok
    &&& a.missing->Ok_0 is None <==> union_of(inside, inside.len() as int) =~= params
}

proof fn lemma_no_early_end(bodies: Seq<SystemBody>, answers: Seq<BodyAnswer>, k: int)
    requires
        0 <= k <= answers.len(),
        forall|i: int|
            0 <= i < answers.len() ==> (#[trigger] answers[i]) matches BodyAnswer::Resolved {
                failure: None,
                ..
            },
    ensures
        early_end(bodies, answers, k) is None,
    decreases answers.len() - k,
{
    if k < answers.len() {
        assert(answers[k] matches BodyAnswer::Resolved { failure: None, .. });
        lemma_no_early_end(bodies, answers, k + 1);
    }
}

proof fn lemma_no_failure(answers: Seq<core::result::Result<bool, String>>, k: int)
    requires
        0 <= k <= answers.len(),
        forall|i: int| 0 <= i < answers.len() ==> (#[trigger] answers[i]) is Ok,
    ensures
        first_failure(answers, k) is None,
    decreases answers.len() - k,
{
    if k < answers.len() {
        assert(answers[k] is Ok);
        lemma_no_failure(answers, k + 1);
    }
}

pub open spec fn says_empty(a: BodyAnswer) -> bool {
    a matches BodyAnswer::Resolved { empty, .. } && empty
}

proof fn lemma_none_empty(bodies: Seq<SystemBody>, answers: Seq<BodyAnswer>, n: nat)
    ensures
        empty_bodies(bodies, answers, n).len() == 0 <==> forall|i: int|
            0 <= i < n ==> !says_empty(#[trigger] answers[i]),
    decreases n,
{
    if n > 0 {
        lemma_none_empty(bodies, answers, (n - 1) as nat);
        if empty_bodies(bodies, answers, n).len() > 0 {
            if !says_empty(answers[n - 1]) {
                let i = choose|i: int| 0 <= i < n - 1 && says_empty(#[trigger] answers[i]);
                assert(says_empty(answers[i]));
            }
        } else {
            assert forall|i: int| 0 <= i < n implies !says_empty(#[trigger] answers[i]) by {
                if i < n - 1 {
                    assert(!says_empty(answers[i]));
                }
            }
        }
    }
}

/// What a clean report on the bodies comes to, for sets that answer for them.
pub proof fn lemma_clean_bodies(
    s: System,
    a: BodiesAnswer,
    sets: Seq<Set<Point>>,
    params: Set<Point>,
)
    requires
        s.bodies@.len() == sets.len(),
        sets.len() > 0,
        bodies_answered(a, sets, params),
    ensures
        bodies_report(s, a).len() == 0 <==> {
            &&& forall|i: int| 0 <= i < sets.len() ==> !((#[trigger] sets[i]) =~= Set::empty())
            &&& forall|i: int, j: int|
                0 <= i < j < sets.len() ==> (#[trigger] clipped(sets, params)[i]).disjoint(
                    #[trigger] clipped(sets, params)[j],
                )
            &&& forall|p: Point| #[trigger]
                params.contains(p) ==> exists|i: int|
                    0 <= i < sets.len() && (#[trigger] clipped(sets, params)[i]).contains(p)
        },
{
    let inside = clipped(sets, params);
    let n = sets.len();
    assert forall|i: int| 0 <= i < a.bodies@.len() implies (
    #[trigger] a.bodies@[i]) matches BodyAnswer::Resolved { failure: None, .. } by {}
    lemma_no_early_end(s.bodies@, a.bodies@, 0);
    assert forall|k: int| 0 <= k < a.overlaps@.len() implies (#[trigger] a.overlaps@[k]) is Ok by {
        assert(says_yes(a.overlaps@[k]) == !union_of(inside, k + 1).disjoint(inside[k + 1]));
    }
    lemma_no_failure(a.overlaps@, 0);
    lemma_none_empty(s.bodies@, a.bodies@, n);
    let disjoint = forall|i: int, j: int|
        0 <= i < j < n ==> (#[trigger] inside[i]).disjoint(#[trigger] inside[j]);
    assert(disjoint <==> !some_yes(a.overlaps@)) by {
        if !disjoint {
            let (i, j) = choose|i: int, j: int|
                0 <= i < j < n && !(#[trigger] inside[i]).disjoint(#[trigger] inside[j]);
            let p = choose|p: Point| inside[i].contains(p) && inside[j].contains(p);
            assert(union_of(inside, j).contains(p));
            assert(says_yes(a.overlaps@[j - 1]));
        }
        if some_yes(a.overlaps@) {
            let k = choose|k: int|
                0 <= k < a.overlaps@.len() && says_yes(#[trigger] a.overlaps@[k]);
            let u = union_of(inside, k + 1);
            assert(!u.disjoint(inside[k + 1]));
            let p = choose|p: Point| u.contains(p) && inside[k + 1].contains(p);
            let i = choose|i: int| 0 <= i < k + 1 && (#[trigger] inside[i]).contains(p);
            assert(!inside[i].disjoint(inside[k + 1]));
        }
    }
    let covered = forall|p: Point| #[trigger]
        params.contains(p) ==> exists|i: int| 0 <= i < n && (#[trigger] inside[i]).contains(p);
    assert(covered <==> union_of(inside, n as int) =~= params) by {
        let u = union_of(inside, n as int);
        assert forall|p: Point| #[trigger] u.contains(p) implies params.contains(p) by {
            let i = choose|i: int| 0 <= i < n && (#[trigger] inside[i]).contains(p);
            assert(inside[i] == sets[i].intersect(params));
        }
        if covered {
            assert forall|p: Point| params.contains(p) implies #[trigger] u.contains(p) by {}
            assert(u =~= params);
        } else {
            let p = choose|p: Point| #[trigger]
                params.contains(p) && !exists|i: int|
                    0 <= i < n && (#[trigger] inside[i]).contains(p);
            assert(!u.contains(p));
        }
    }
    assert((forall|i: int| 0 <= i < n ==> !((#[trigger] sets[i]) =~= Set::empty())) <==> (forall|
        i: int,
    |
        0 <= i < n ==> !says_empty(#[trigger] a.bodies@[i]))) by {
        if exists|i: int| 0 <= i < n && ((#[trigger] sets[i]) =~= Set::empty()) {
            let i = choose|i: int| 0 <= i < n && ((#[trigger] sets[i]) =~= Set::empty());
            assert(says_empty(a.bodies@[i]));
        }
        if exists|i: int| 0 <= i < n && says_empty(#[trigger] a.bodies@[i]) {
            let i = choose|i: int| 0 <= i < n && says_empty(#[trigger] a.bodies@[i]);
            assert(sets[i] =~= Set::empty());
        }
    }
}

/// A selection is defined exactly at the points that its relation leads into its operand's domain.
pub proof fn a_selection_is_defined_where_it_leads(
    s: System,
    relation: Option<Calc>,
    expr: Option<Box<Expr>>,
    span: Span,
    context: Seq<Seq<char>>,
    r: Reading,
    p: Point,
)
    ensures
        points(select_set(s, relation, expr, span, context), r).contains(p) <==> exists|q: Point|
            #[trigger] pairs(selection(s, relation, span, context).0, r).contains((p, q)) && points(
                part_set(s, expr, span, selection(s, relation, span, context).1),
                r,
            ).contains(q),
{
    let (map, names) = selection(s, relation, span, context);
    let part = part_set(s, expr, span, names);
    let m = pairs(map, r);
    let inner = points(part, r);
    let set = select_set(s, relation, expr, span, context);
    assert(set == SetModel::Select(Box::new(map), Box::new(part), span));
    assert(points(set, r) == Set::new(
        |p: Point| exists|q: Point| m.contains((p, q)) && inner.contains(q),
    ));
}

} // verus!
