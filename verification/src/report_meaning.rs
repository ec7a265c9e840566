//! What the report on a whole system comes to: it is empty exactly when every check is content, and
//! then the system is sound.
use crate::analyze::{
    a_plan_reports_its_first_failure, all_outcomes_report, answers_ok, cases_among, cases_report,
    equation_failure, exprs_in_bodies, exprs_in_equations, outcome_report, outcome_true,
    outcomes_report, plan_issue, plans_report, reduces_among, reduces_report, system_cases,
    system_plans, system_reduces, system_report, EquationPlanModel, OutcomeOfEquation, PlanOutcome,
    SystemAnswers,
};
use crate::check_meaning::{
    bodies_true, bounded_above, bounded_below, bounds_true, branches_true,
    clean_bodies_partition_the_parameters, clean_cases_have_disjoint_branches,
    clean_reductions_are_bounded, selected_sets,
};
use crate::completeness::{
    a_clean_body_defines_what_it_must, bodies_report, body_defines, body_uses, case_report,
    equation_defines, equation_uses, has_equation, names_within, reduce_report, self_call,
    undefined_in_bodies, undefined_in_body, undefined_region, BranchAnswer, EquationAnswer,
    ReduceAnswer,
};
use crate::diagnostic::Diagnostic;
use crate::function::function_value;
use crate::linear_checks::linear_report;
use crate::linearity::World;
use crate::meaning::{clipped, image, points, Point, Reading};
use crate::questions::needed_at;
use crate::resolve::param_set;
use crate::syntax::{
    Decl, Equation, Expr, ExprKind, Span, StandardEquation, System, SystemBody, UseEquation,
};
use crate::text::views;
use crate::uniqueness::{
    a_clean_system_has_unique_names, is_equation_for, is_output_of, names_are_unique,
};
use crate::walk::{
    is_named, lemma_in_sum, names_are_those_of_the_variables, subtree, variable_names,
};
use vstd::prelude::*;

verus! {

/// Some expression of a list mentions a variable.
pub open spec fn mentioned_in(all: Seq<Expr>, name: Seq<char>) -> bool {
    exists|i: int, x: Expr|
        0 <= i < all.len() && #[trigger] subtree(all[i]).contains(x) && is_named(x, name)
}

/// An equation mentions a variable, on the left or on the right.
pub open spec fn mentions(eq: Equation, name: Seq<char>) -> bool {
    match eq {
        Equation::Standard(q) => q.expr matches Some(e) && exists|x: Expr| #[trigger]
            subtree(e).contains(x) && is_named(x, name),
        Equation::Use(u) => mentioned_in(u.outputs@, name) || mentioned_in(u.inputs@, name),
    }
}

/// Some equation is for a variable, or writes it by calling a system.
pub open spec fn is_defined_in(equations: Seq<Equation>, name: Seq<char>) -> bool {
    exists|i: int|
        0 <= i < equations.len() && (is_equation_for(#[trigger] equations[i], name) || is_output_of(
            equations[i],
            name,
        ))
}

pub open spec fn is_used_in(equations: Seq<Equation>, name: Seq<char>) -> bool {
    exists|i: int| 0 <= i < equations.len() && mentions(#[trigger] equations[i], name)
}

/// The declaration has a name.
pub open spec fn goes_by(d: Decl, name: Seq<char>) -> bool {
    d.name matches Some(n) && n.text@ == name
}

/// A body defines every output of the system, and every local that it mentions.
pub open spec fn defines_what_it_must(s: System, body: SystemBody) -> bool {
    &&& forall|i: int, name: Seq<char>|
        0 <= i < s.outputs@.len() && #[trigger] goes_by(s.outputs@[i], name) ==> is_defined_in(
            body.equations@,
            name,
        )
    &&& forall|i: int, name: Seq<char>|
        0 <= i < s.locals@.len() && #[trigger] goes_by(s.locals@[i], name) && is_used_in(
            body.equations@,
            name,
        ) ==> is_defined_in(body.equations@, name)
}

proof fn lemma_names_within(all: Seq<Expr>, name: Seq<char>)
    ensures
        names_within(all).contains(name) <==> mentioned_in(all, name),
    decreases all.len(),
{
    if all.len() > 0 {
        let before = all.drop_last();
        lemma_names_within(before, name);
        let own = variable_names(subtree(all.last()));
        lemma_in_sum(names_within(before), own, name);
        names_are_those_of_the_variables(subtree(all.last()), name);
        if own.contains(name) {
            let x = choose|x: Expr| #[trigger]
                subtree(all.last()).contains(x) && is_named(x, name);
            assert(subtree(all[all.len() - 1]).contains(x));
        }
        if mentioned_in(before, name) {
            let (i, x) = choose|i: int, x: Expr|
                0 <= i < before.len() && #[trigger] subtree(before[i]).contains(x) && is_named(
                    x,
                    name,
                );
            assert(subtree(all[i]).contains(x));
        }
        if mentioned_in(all, name) {
            let (i, x) = choose|i: int, x: Expr|
                0 <= i < all.len() && #[trigger] subtree(all[i]).contains(x) && is_named(x, name);
            if i < before.len() {
                assert(subtree(before[i]).contains(x));
            }
        }
    }
}

proof fn lemma_equation_names(eq: Equation, name: Seq<char>)
    ensures
        equation_uses(eq).contains(name) <==> mentions(eq, name),
        equation_defines(eq).contains(name) <==> is_equation_for(eq, name) || is_output_of(
            eq,
            name,
        ),
{
    match eq {
        Equation::Standard(q) => {
            if let Some(e) = q.expr {
                names_are_those_of_the_variables(subtree(e), name);
            }
            if let Some(n) = q.variable {
                assert(seq![n.text@][0] == n.text@);
            }
        },
        Equation::Use(u) => {
            lemma_names_within(u.outputs@, name);
            lemma_names_within(u.inputs@, name);
            lemma_in_sum(names_within(u.outputs@), names_within(u.inputs@), name);
        },
    }
}

proof fn lemma_body_names(equations: Seq<Equation>, name: Seq<char>)
    ensures
        body_uses(equations).contains(name) <==> is_used_in(equations, name),
        body_defines(equations).contains(name) <==> is_defined_in(equations, name),
    decreases equations.len(),
{
    if equations.len() > 0 {
        let before = equations.drop_last();
        let last = equations[equations.len() - 1];
        lemma_body_names(before, name);
        lemma_equation_names(last, name);
        lemma_in_sum(body_uses(before), equation_uses(last), name);
        lemma_in_sum(body_defines(before), equation_defines(last), name);
        assert forall|i: int| 0 <= i < before.len() implies before[i] == #[trigger] equations[i] by {}
        if is_used_in(before, name) {
            let i = choose|i: int| 0 <= i < before.len() && mentions(#[trigger] before[i], name);
            assert(mentions(equations[i], name));
        }
        if is_used_in(equations, name) {
            let i = choose|i: int|
                0 <= i < equations.len() && mentions(#[trigger] equations[i], name);
            if i < before.len() {
                assert(mentions(before[i], name));
            }
        }
        if is_defined_in(before, name) {
            let i = choose|i: int|
                0 <= i < before.len() && (is_equation_for(#[trigger] before[i], name)
                    || is_output_of(before[i], name));
            assert(is_equation_for(equations[i], name) || is_output_of(equations[i], name));
        }
        if is_defined_in(equations, name) {
            let i = choose|i: int|
                0 <= i < equations.len() && (is_equation_for(#[trigger] equations[i], name)
                    || is_output_of(equations[i], name));
            if i < before.len() {
                assert(is_equation_for(before[i], name) || is_output_of(before[i], name));
            }
        }
    }
}

/// Nothing is reported as undefined in a body exactly when it defines every output, and every local
/// that it mentions.
pub proof fn nothing_is_undefined_iff_all_is_defined(s: System, body: SystemBody)
    ensures
        undefined_in_body(s, body).len() == 0 <==> defines_what_it_must(s, body),
{
    a_clean_body_defines_what_it_must(s, body);
    let uses = body_uses(body.equations@);
    let defines = body_defines(body.equations@);
    assert forall|name: Seq<char>|
        (#[trigger] uses.contains(name) <==> is_used_in(body.equations@, name)) && (
        defines.contains(name) <==> is_defined_in(body.equations@, name)) by {
        lemma_body_names(body.equations@, name);
    }
    assert forall|name: Seq<char>| #[trigger] defines.contains(name) <==> is_defined_in(
        body.equations@,
        name,
    ) by {
        lemma_body_names(body.equations@, name);
    }
    if undefined_in_body(s, body).len() == 0 {
        assert forall|i: int, name: Seq<char>|
            0 <= i < s.outputs@.len() && #[trigger] goes_by(
                s.outputs@[i],
                name,
            ) implies is_defined_in(body.equations@, name) by {
            assert(has_equation(s.outputs@[i], None, defines));
        }
        assert forall|i: int, name: Seq<char>|
            0 <= i < s.locals@.len() && #[trigger] goes_by(s.locals@[i], name) && is_used_in(
                body.equations@,
                name,
            ) implies is_defined_in(body.equations@, name) by {
            assert(has_equation(s.locals@[i], Some(uses), defines));
            assert(uses.contains(name));
        }
    }
    if defines_what_it_must(s, body) {
        assert forall|i: int| 0 <= i < s.outputs@.len() implies has_equation(
            #[trigger] s.outputs@[i],
            None,
            defines,
        ) by {
            if let Some(n) = s.outputs@[i].name {
                assert(goes_by(s.outputs@[i], n.text@));
            }
        }
        assert forall|i: int| 0 <= i < s.locals@.len() implies has_equation(
            #[trigger] s.locals@[i],
            Some(uses),
            defines,
        ) by {
            if let Some(n) = s.locals@[i].name {
                assert(goes_by(s.locals@[i], n.text@));
            }
        }
    }
}

proof fn lemma_bodies_define(s: System, bodies: Seq<SystemBody>)
    ensures
        undefined_in_bodies(s, bodies).len() == 0 <==> forall|b: int|
            0 <= b < bodies.len() ==> defines_what_it_must(s, #[trigger] bodies[b]),
    decreases bodies.len(),
{
    if bodies.len() > 0 {
        let before = bodies.drop_last();
        lemma_bodies_define(s, before);
        nothing_is_undefined_iff_all_is_defined(s, bodies.last());
        assert forall|b: int| 0 <= b < before.len() implies before[b] == #[trigger] bodies[b] by {}
        if forall|b: int| 0 <= b < bodies.len() ==> defines_what_it_must(s, #[trigger] bodies[b]) {
            assert forall|b: int| 0 <= b < before.len() implies defines_what_it_must(
                s,
                #[trigger] before[b],
            ) by {
                assert(before[b] == bodies[b]);
            }
            assert(defines_what_it_must(s, bodies[bodies.len() - 1]));
        }
        if undefined_in_bodies(s, bodies).len() == 0 {
            assert forall|b: int| 0 <= b < bodies.len() implies defines_what_it_must(
                s,
                #[trigger] bodies[b],
            ) by {
                if b < before.len() {
                    assert(before[b] == bodies[b]);
                }
            }
        }
    }
}

/// The expression stands somewhere in the standard equations of a system.
pub open spec fn stands_in(s: System, x: Expr) -> bool {
    exists|b: int, i: int| #[trigger] stands_at(s, b, i, x)
}

pub open spec fn stands_at(s: System, b: int, i: int, x: Expr) -> bool {
    &&& 0 <= b < s.bodies@.len()
    &&& stands_in_equation(s.bodies@[b].equations@, i, x)
}

pub open spec fn stands_in_equation(equations: Seq<Equation>, i: int, x: Expr) -> bool {
    &&& 0 <= i < equations.len()
    &&& equations[i] matches Equation::Standard(q) && q.expr matches Some(e) && subtree(e).contains(
        x,
    )
}

proof fn lemma_equation_exprs(equations: Seq<Equation>, x: Expr)
    ensures
        exprs_in_equations(equations).contains(x) <==> exists|i: int| #[trigger]
            stands_in_equation(equations, i, x),
    decreases equations.len(),
{
    if equations.len() > 0 {
        let before = equations.drop_last();
        lemma_equation_exprs(before, x);
        let own = match equations.last() {
            Equation::Standard(q) => match q.expr {
                Some(x) => subtree(x),
                None => Seq::empty(),
            },
            Equation::Use(_) => Seq::empty(),
        };
        lemma_in_sum(exprs_in_equations(before), own, x);
        if own.contains(x) {
            assert(stands_in_equation(equations, equations.len() - 1, x));
        }
        if exists|i: int| #[trigger] stands_in_equation(before, i, x) {
            let i = choose|i: int| #[trigger] stands_in_equation(before, i, x);
            assert(stands_in_equation(equations, i, x));
        }
        if exists|i: int| #[trigger] stands_in_equation(equations, i, x) {
            let i = choose|i: int| #[trigger] stands_in_equation(equations, i, x);
            if i < before.len() {
                assert(stands_in_equation(before, i, x));
            }
        }
    }
}

proof fn lemma_body_exprs(bodies: Seq<SystemBody>, x: Expr)
    ensures
        exprs_in_bodies(bodies).contains(x) <==> exists|b: int, i: int|
            0 <= b < bodies.len() && #[trigger] stands_in_equation(bodies[b].equations@, i, x),
    decreases bodies.len(),
{
    if bodies.len() > 0 {
        let before = bodies.drop_last();
        lemma_body_exprs(before, x);
        let own = exprs_in_equations(bodies.last().equations@);
        lemma_equation_exprs(bodies.last().equations@, x);
        lemma_in_sum(exprs_in_bodies(before), own, x);
        if own.contains(x) {
            let i = choose|i: int| #[trigger]
                stands_in_equation(bodies.last().equations@, i, x);
            assert(stands_in_equation(bodies[bodies.len() - 1].equations@, i, x));
        }
        if exprs_in_bodies(before).contains(x) {
            let (b, i) = choose|b: int, i: int|
                0 <= b < before.len() && #[trigger] stands_in_equation(
                    before[b].equations@,
                    i,
                    x,
                );
            assert(stands_in_equation(bodies[b].equations@, i, x));
        }
        if exists|b: int, i: int|
            0 <= b < bodies.len() && #[trigger] stands_in_equation(bodies[b].equations@, i, x) {
            let (b, i) = choose|b: int, i: int|
                0 <= b < bodies.len() && #[trigger] stands_in_equation(bodies[b].equations@, i, x);
            if b < before.len() {
                assert(stands_in_equation(before[b].equations@, i, x));
            }
        }
    }
}

proof fn lemma_cases_of(all: Seq<Expr>, x: Expr, branches: Vec<Expr>)
    requires
        all.contains(x),
        x.kind == (ExprKind::Case { branches }),
    ensures
        cases_among(all).contains(branches@),
    decreases all.len(),
{
    let i = choose|i: int| 0 <= i < all.len() && all[i] == x;
    let before = cases_among(all.drop_last());
    if i == all.len() - 1 {
        assert(cases_among(all)[before.len() as int] == branches@);
    } else {
        assert(all.drop_last()[i] == x);
        lemma_cases_of(all.drop_last(), x, branches);
        let k = choose|k: int| 0 <= k < before.len() && before[k] == branches@;
        assert(cases_among(all)[k] == branches@);
    }
}

proof fn lemma_reduces_of(all: Seq<Expr>, x: Expr)
    requires
        all.contains(x),
        x.kind is Reduce,
    ensures
        reduces_among(all).contains((x.kind->Reduce_body is Some, x.span)),
    decreases all.len(),
{
    let i = choose|i: int| 0 <= i < all.len() && all[i] == x;
    let before = reduces_among(all.drop_last());
    let own = (x.kind->Reduce_body is Some, x.span);
    if i == all.len() - 1 {
        assert(reduces_among(all)[before.len() as int] == own);
    } else {
        assert(all.drop_last()[i] == x);
        lemma_reduces_of(all.drop_last(), x);
        let k = choose|k: int| 0 <= k < before.len() && before[k] == own;
        assert(reduces_among(all)[k] == own);
    }
}

proof fn lemma_cases_clean(cases: Seq<Seq<Expr>>, answers: Seq<Vec<BranchAnswer>>, n: nat)
    ensures
        cases_report(cases, answers, n).len() == 0 <==> forall|k: int|
            0 <= k < n ==> case_report(#[trigger] cases[k], answers[k]@).len() == 0,
    decreases n,
{
    if n > 0 {
        lemma_cases_clean(cases, answers, (n - 1) as nat);
        if cases_report(cases, answers, n).len() != 0 && cases_report(
            cases,
            answers,
            (n - 1) as nat,
        ).len() == 0 {
            assert(case_report(cases[n - 1], answers[n - 1]@).len() != 0);
        }
    }
}

proof fn lemma_reduces_clean(reduces: Seq<(bool, Span)>, answers: Seq<ReduceAnswer>, n: nat)
    ensures
        reduces_report(reduces, answers, n).len() == 0 <==> forall|k: int|
            0 <= k < n ==> reduce_report(
                (#[trigger] reduces[k]).0,
                reduces[k].1,
                answers[k],
            ).len() == 0,
    decreases n,
{
    if n > 0 {
        lemma_reduces_clean(reduces, answers, (n - 1) as nat);
        if reduces_report(reduces, answers, n).len() != 0 && reduces_report(
            reduces,
            answers,
            (n - 1) as nat,
        ).len() == 0 {
            assert(reduce_report(reduces[n - 1].0, reduces[n - 1].1, answers[n - 1]).len() != 0);
        }
    }
}

proof fn lemma_outcomes_clean(
    s: System,
    equations: Seq<Equation>,
    answers: Seq<OutcomeOfEquation>,
    n: nat,
)
    ensures
        outcomes_report(s, equations, answers, n).len() == 0 <==> forall|k: int|
            0 <= k < n ==> outcome_report(s, #[trigger] equations[k], answers[k]).len() == 0,
    decreases n,
{
    if n > 0 {
        lemma_outcomes_clean(s, equations, answers, (n - 1) as nat);
        if outcomes_report(s, equations, answers, n).len() != 0 && outcomes_report(
            s,
            equations,
            answers,
            (n - 1) as nat,
        ).len() == 0 {
            assert(outcome_report(s, equations[n - 1], answers[n - 1]).len() != 0);
        }
    }
}

proof fn lemma_all_outcomes_clean(s: System, answers: Seq<Vec<OutcomeOfEquation>>, n: nat)
    ensures
        all_outcomes_report(s, answers, n).len() == 0 <==> forall|b: int, k: int|
            0 <= b < n && 0 <= k < s.bodies@[b].equations@.len() ==> outcome_report(
                s,
                #[trigger] s.bodies@[b].equations@[k],
                answers[b]@[k],
            ).len() == 0,
    decreases n,
{
    if n > 0 {
        lemma_all_outcomes_clean(s, answers, (n - 1) as nat);
        let equations = s.bodies@[n - 1].equations@;
        lemma_outcomes_clean(s, equations, answers[n - 1]@, equations.len());
        if forall|b: int, k: int|
            0 <= b < n && 0 <= k < s.bodies@[b].equations@.len() ==> outcome_report(
                s,
                #[trigger] s.bodies@[b].equations@[k],
                answers[b]@[k],
            ).len() == 0 {
            assert forall|k: int| 0 <= k < equations.len() implies outcome_report(
                s,
                #[trigger] equations[k],
                answers[n - 1]@[k],
            ).len() == 0 by {
                assert(s.bodies@[n - 1].equations@[k] == equations[k]);
            }
        }
        if all_outcomes_report(s, answers, n).len() == 0 {
            assert forall|b: int, k: int|
                0 <= b < n && 0 <= k < s.bodies@[b].equations@.len() implies outcome_report(
                s,
                #[trigger] s.bodies@[b].equations@[k],
                answers[b]@[k],
            ).len() == 0 by {
                if b == n - 1 {
                    assert(outcome_report(s, equations[k], answers[n - 1]@[k]).len() == 0);
                }
            }
        }
    }
}

proof fn lemma_plans_clean(plans: Seq<EquationPlanModel>, outcomes: Seq<PlanOutcome>, n: nat)
    ensures
        plans_report(plans, outcomes, n).len() == 0 <==> forall|k: int|
            0 <= k < n ==> plan_issue(#[trigger] plans[k], outcomes[k]) is None,
    decreases n,
{
    if n > 0 {
        lemma_plans_clean(plans, outcomes, (n - 1) as nat);
        if plans_report(plans, outcomes, n).len() != 0 && plans_report(
            plans,
            outcomes,
            (n - 1) as nat,
        ).len() == 0 {
            assert(plan_issue(plans[n - 1], outcomes[n - 1]) is Some);
        }
    }
}

/// Nothing was found wrong anywhere in a system: no work on its equations failed, its linear values
/// are used rightly, its names are unique, its bodies are told apart by the parameters, every case
/// and every reduction is in order, every body defines what it must, and every equation is complete
/// or calls another system.
pub open spec fn is_in_order(w: World, a: SystemAnswers) -> bool {
    let s = w.system;
    let plans = system_plans(s, s.bodies@);
    &&& forall|k: int| 0 <= k < plans.len() ==> plan_issue(#[trigger] plans[k], a.plans@[k]) is None
    &&& linear_report(w, a.linear).len() == 0
    &&& names_are_unique(s)
    &&& bodies_report(s, a.bodies).len() == 0
    &&& forall|k: int|
        0 <= k < system_cases(s).len() ==> case_report(
            #[trigger] system_cases(s)[k],
            a.cases@[k]@,
        ).len() == 0
    &&& forall|k: int|
        0 <= k < system_reduces(s).len() ==> reduce_report(
            (#[trigger] system_reduces(s)[k]).0,
            system_reduces(s)[k].1,
            a.reduces@[k],
        ).len() == 0
    &&& forall|b: int|
        0 <= b < s.bodies@.len() ==> defines_what_it_must(s, #[trigger] s.bodies@[b])
    &&& forall|b: int, k: int|
        0 <= b < s.bodies@.len() && 0 <= k < s.bodies@[b].equations@.len() ==> outcome_report(
            s,
            #[trigger] s.bodies@[b].equations@[k],
            a.equations@[b]@[k],
        ).len() == 0
}

/// The report on a system is empty exactly when nothing was found wrong by any of the checks: in
/// particular its names are unique, and every body defines every output and every local it mentions.
pub proof fn an_empty_report_means_every_check_is_content(w: World, a: SystemAnswers)
    ensures
        system_report(w, a).len() == 0 <==> is_in_order(w, a),
{
    let s = w.system;
    let plans = system_plans(s, s.bodies@);
    lemma_plans_clean(plans, a.plans@, plans.len());
    a_clean_system_has_unique_names(s);
    lemma_cases_clean(system_cases(s), a.cases@, system_cases(s).len());
    lemma_reduces_clean(system_reduces(s), a.reduces@, system_reduces(s).len());
    lemma_bodies_define(s, s.bodies@);
    lemma_all_outcomes_clean(s, a.equations@, s.bodies@.len());
}

/// Every case and every reduction that stands anywhere in the equations of a system is looked at.
pub proof fn every_case_and_reduction_is_looked_at(s: System, x: Expr)
    requires
        stands_in(s, x),
    ensures
        x.kind matches ExprKind::Case { branches } ==> system_cases(s).contains(branches@),
        x.kind is Reduce ==> system_reduces(s).contains((x.kind->Reduce_body is Some, x.span)),
{
    let (b, i) = choose|b: int, i: int| #[trigger] stands_at(s, b, i, x);
    assert(stands_in_equation(s.bodies@[b].equations@, i, x));
    lemma_body_exprs(s.bodies@, x);
    if let ExprKind::Case { branches } = x.kind {
        lemma_cases_of(exprs_in_bodies(s.bodies@), x, branches);
    }
    if x.kind is Reduce {
        lemma_reduces_of(exprs_in_bodies(s.bodies@), x);
    }
}

/// The answer for a standard equation is right about where it is not defined.
pub open spec fn equation_true(
    s: System,
    body: SystemBody,
    q: StandardEquation,
    a: EquationAnswer,
    r: Reading,
) -> bool {
    &&& a.domain is Some
    &&& a.domain == a.variable
    &&& a.body
    &&& a.undefined is Ok
    &&& q.expr matches Some(e) ==> q.variable matches Some(n) ==> (a.undefined->Ok_0 is None
        <==> points(undefined_region(s, n.text@, body, e, views(q.indices@), q.span), r)
        =~= Set::empty())
}

/// A call hands the parameters on as they are.
pub open spec fn hands_on(s: System, u: UseEquation, r: Reading) -> bool {
    u.call_params matches Some(c) && forall|p: Point| #[trigger]
        image(function_value(s, c, Seq::empty()), p, r) == p
}

/// Every answer about a system is right.
pub open spec fn all_true(
    w: World,
    a: SystemAnswers,
    domains: Map<usize, Set<Point>>,
    r: Reading,
) -> bool {
    let s = w.system;
    let plans = system_plans(s, s.bodies@);
    &&& forall|k: int|
        0 <= k < plans.len() ==> outcome_true(#[trigger] plans[k], a.plans@[k], domains, r)
    &&& bodies_true(s, a.bodies, r)
    &&& forall|k: int|
        0 <= k < system_cases(s).len() ==> branches_true(
            #[trigger] system_cases(s)[k],
            a.cases@[k]@,
            r,
        )
    &&& forall|b: int, k: int|
        0 <= b < s.bodies@.len() && 0 <= k < s.bodies@[b].equations@.len() ==> match (
        #[trigger] s.bodies@[b].equations@[k]) {
            Equation::Standard(q) => equation_true(
                s,
                s.bodies@[b],
                q,
                a.equations@[b]@[k].standard,
                r,
            ),
            Equation::Use(u) => a.equations@[b]@[k].identity == Ok::<bool, Diagnostic>(
                hands_on(s, u, r),
            ),
        }
}

/// Where the report on a system is empty, and the answers are right: its bodies share no values of
/// the parameters and together take them all; no two branches of any case are needed at the same
/// point; every equation is defined wherever its variable is needed in its body; and no call of the
/// system itself hands on the parameters as they are.
pub proof fn a_system_without_problems_is_sound(
    w: World,
    a: SystemAnswers,
    domains: Map<usize, Set<Point>>,
    r: Reading,
)
    requires
        answers_ok(w, a),
        w.system.bodies@.len() > 0,
        all_true(w, a, domains, r),
        system_report(w, a).len() == 0,
    ensures
        ({
            let s = w.system;
            let plans = system_plans(s, s.bodies@);
            let sets = selected_sets(s, r);
            let params = points(param_set(s), r);
            &&& forall|k: int|
                0 <= k < plans.len() ==> equation_failure(#[trigger] plans[k], domains, r) is None
            &&& forall|i: int| 0 <= i < sets.len() ==> !((#[trigger] sets[i]) =~= Set::empty())
            &&& forall|i: int, j: int|
                0 <= i < j < sets.len() ==> (#[trigger] clipped(sets, params)[i]).disjoint(
                    #[trigger] clipped(sets, params)[j],
                )
            &&& forall|p: Point| #[trigger]
                params.contains(p) ==> exists|i: int|
                    0 <= i < sets.len() && (#[trigger] clipped(sets, params)[i]).contains(p)
            &&& forall|x: Expr, branches: Vec<Expr>, i: int, j: int|
                #![trigger stands_in(s, x), branches@[i], branches@[j]]
                stands_in(s, x) && x.kind == (ExprKind::Case { branches }) && 0 <= i < j
                    < branches@.len() ==> points(needed_at(branches@[i].node), r).disjoint(
                    points(needed_at(branches@[j].node), r),
                )
            &&& forall|b: int, k: int|
                0 <= b < s.bodies@.len() && 0 <= k < s.bodies@[b].equations@.len() ==> match (
                #[trigger] s.bodies@[b].equations@[k]) {
                    Equation::Standard(q) => q.expr matches Some(e) ==> q.variable matches Some(n)
                        ==> points(
                        undefined_region(s, n.text@, s.bodies@[b], e, views(q.indices@), q.span),
                        r,
                    ) =~= Set::empty(),
                    Equation::Use(u) => self_call(u, s) ==> !hands_on(s, u, r),
                }
        }),
{
    let s = w.system;
    let plans = system_plans(s, s.bodies@);
    an_empty_report_means_every_check_is_content(w, a);
    assert forall|k: int| 0 <= k < plans.len() implies equation_failure(
        #[trigger] plans[k],
        domains,
        r,
    ) is None by {
        a_plan_reports_its_first_failure(plans[k], a.plans@[k], domains, r);
    }
    clean_bodies_partition_the_parameters(s, a.bodies, r);
    assert forall|x: Expr, branches: Vec<Expr>, i: int, j: int|
        #![trigger stands_in(s, x), branches@[i], branches@[j]]
        stands_in(s, x) && x.kind == (ExprKind::Case { branches }) && 0 <= i < j
            < branches@.len() implies points(needed_at(branches@[i].node), r).disjoint(
        points(needed_at(branches@[j].node), r),
    ) by {
        every_case_and_reduction_is_looked_at(s, x);
        let k = choose|k: int| 0 <= k < system_cases(s).len() && system_cases(s)[k] == branches@;
        clean_cases_have_disjoint_branches(system_cases(s)[k], a.cases@[k]@, r);
        assert(branches@[i].node == system_cases(s)[k][i].node);
        assert(branches@[j].node == system_cases(s)[k][j].node);
    }
    assert forall|b: int, k: int|
        0 <= b < s.bodies@.len() && 0 <= k < s.bodies@[b].equations@.len() implies match (
    #[trigger] s.bodies@[b].equations@[k]) {
        Equation::Standard(q) => q.expr matches Some(e) ==> q.variable matches Some(n) ==> points(
            undefined_region(s, n.text@, s.bodies@[b], e, views(q.indices@), q.span),
            r,
        ) =~= Set::empty(),
        Equation::Use(u) => self_call(u, s) ==> !hands_on(s, u, r),
    } by {
        assert(outcome_report(s, s.bodies@[b].equations@[k], a.equations@[b]@[k]).len() == 0);
    }
}

/// Where the report on a system is empty, every index of the body of every reduction in it that has
/// `n` indices is bounded on both sides, if the answer for it is right.
pub proof fn a_system_without_problems_has_bounded_reductions(
    w: World,
    a: SystemAnswers,
    x: Expr,
    n: nat,
    r: Reading,
)
    requires
        answers_ok(w, a),
        system_report(w, a).len() == 0,
        stands_in(w.system, x),
        x.kind is Reduce,
        x.kind->Reduce_body is Some,
        forall|k: int|
            0 <= k < system_reduces(w.system).len() && (#[trigger] system_reduces(w.system)[k]).1
                == x.span ==> bounds_true(a.reduces@[k], x.kind->Reduce_body->Some_0.node, n, r),
    ensures
        forall|i: int|
            0 <= i < n ==> #[trigger] bounded_above(
                points(needed_at(x.kind->Reduce_body->Some_0.node), r),
                i,
            ) && bounded_below(points(needed_at(x.kind->Reduce_body->Some_0.node), r), i),
{
    let s = w.system;
    an_empty_report_means_every_check_is_content(w, a);
    every_case_and_reduction_is_looked_at(s, x);
    let own = (x.kind->Reduce_body is Some, x.span);
    let k = choose|k: int| 0 <= k < system_reduces(s).len() && system_reduces(s)[k] == own;
    assert(system_reduces(s)[k].1 == x.span);
    clean_reductions_are_bounded(x.span, a.reduces@[k], x.kind->Reduce_body->Some_0.node, n, r);
    assert(reduce_report(system_reduces(s)[k].0, system_reduces(s)[k].1, a.reduces@[k]).len() == 0);
}

} // verus!
