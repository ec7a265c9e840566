//! The checks of a whole system and of a whole program.
use crate::completeness::{
    bodies_report, case_report, check_one_case, check_one_reduce,
    check_standard_equation_completeness, check_system_bodies, check_undefined_variables,
    check_use_equation_recursion, equation_report, recursion_report, reduce_report,
    undefined_in_bodies, BodiesAnswer, BranchAnswer, EquationAnswer, ReduceAnswer,
};
use crate::diagnostic::{issues, report, report_all, Diagnostic, Issue};
use crate::domain::{body_set, context_plan, expression_set, use_equation_context, use_names};
use crate::failure::{failure, first_of, plan_failure, sets_failure};
use crate::linear_checks::{linear_answers_ok, linear_report, LinearAnswers};
use crate::linearity::{Uses, World};
use crate::meaning::{points, Point, Reading};
use crate::polyhedral::{combine, combined, ContextModel, ContextPlan, SetModel, SetOp, SetTerm};
use crate::program::{signature_views, PortModel, PortSignature};
use crate::resolve::{system_ok, variable_set, Resolver};
use crate::syntax::{Equation, Expr, ExprKind, Span, StandardEquation, System, SystemBody};
use crate::text::views;
use crate::uniqueness::{check_system_uniqueness, system_clashes};
use crate::walk::{referred, subtree, walk_expr};
use vstd::prelude::*;

verus! {

pub open spec fn set_models(v: Seq<SetTerm>) -> Seq<SetModel> {
    Seq::new(v.len(), |i: int| v[i]@)
}

/// Where each expression of a list is defined.
pub open spec fn list_sets(s: System, all: Seq<Expr>, names: Seq<Seq<char>>) -> Seq<SetModel> {
    all.map_values(|e: Expr| expression_set(s, e, names))
}

/// The domains to compute for an equation, in order.
pub open spec fn equation_sets(s: System, eq: Equation) -> Seq<SetModel> {
    match eq {
        Equation::Standard(q) => match q.expr {
            Some(x) => seq![expression_set(s, x, views(q.indices@))],
            None => Seq::empty(),
        },
        Equation::Use(u) => list_sets(s, u.outputs@, use_names(u)) + list_sets(
            s,
            u.inputs@,
            use_names(u),
        ),
    }
}

/// Where the context of a standard equation starts, and how it goes on from there.
pub open spec fn equation_context(s: System, eq: StandardEquation, body: SystemBody) -> Option<
    (SetModel, ContextModel),
> {
    match eq.variable {
        None => None,
        Some(n) => Some(
            (
                combined(
                    SetOp::IntersectParams,
                    variable_set(s, n.text@, Seq::empty()),
                    body_set(s, body),
                    eq.span,
                ),
                match eq.expr {
                    Some(x) => context_plan(s, x, views(eq.indices@), None),
                    None => ContextModel::Nothing,
                },
            ),
        ),
    }
}

/// What is to be computed for one equation. The domains come first; where one of them fails, that
/// is reported and the context is left out.
#[derive(Debug)]
pub struct EquationPlan {
    pub domains: Vec<SetTerm>,
    pub context: Option<(SetTerm, ContextPlan)>,
}

/// An [`EquationPlan`] as a mathematical value.
pub struct EquationPlanModel {
    pub domains: Seq<SetModel>,
    pub context: Option<(SetModel, ContextModel)>,
}

pub open spec fn context_view(c: Option<(SetTerm, ContextPlan)>) -> Option<
    (SetModel, ContextModel),
> {
    match c {
        Some((a, b)) => Some((a@, b@)),
        None => None,
    }
}

impl View for EquationPlan {
    type V = EquationPlanModel;

    open spec fn view(&self) -> EquationPlanModel {
        EquationPlanModel {
            domains: set_models(self.domains@),
            context: context_view(self.context),
        }
    }
}

pub open spec fn plan_models(v: Seq<EquationPlan>) -> Seq<EquationPlanModel> {
    Seq::new(v.len(), |i: int| v[i]@)
}

pub open spec fn equation_plan(s: System, body: SystemBody, eq: Equation) -> EquationPlanModel {
    EquationPlanModel {
        domains: equation_sets(s, eq),
        context: match eq {
            Equation::Standard(q) => equation_context(s, q, body),
            Equation::Use(_) => None,
        },
    }
}

pub open spec fn body_plans(s: System, body: SystemBody) -> Seq<EquationPlanModel> {
    body.equations@.map_values(|eq: Equation| equation_plan(s, body, eq))
}

pub open spec fn system_plans(s: System, bodies: Seq<SystemBody>) -> Seq<EquationPlanModel>
    decreases bodies.len(),
{
    if bodies.len() == 0 {
        Seq::empty()
    } else {
        system_plans(s, bodies.drop_last()) + body_plans(s, bodies.last())
    }
}

impl<'a> Resolver<'a> {
    fn push_domains(&self, all: &Vec<Expr>, names: &Vec<String>, out: &mut Vec<SetTerm>)
        requires
            self.wf(),
        ensures
            set_models(final(out)@) == set_models(old(out)@) + list_sets(
                *self.system,
                all@,
                views(names@),
            ),
    {
        let ghost before = set_models(out@);
        let ghost target = list_sets(*self.system, all@, views(names@));
        let mut i: usize = 0;
        proof {
            assert(before + target.take(0) =~= before);
        }
        while i < all.len()
            invariant
                self.wf(),
                i <= all@.len(),
                target == list_sets(*self.system, all@, views(names@)),
                set_models(out@) == before + target.take(i as int),
            decreases all@.len() - i,
        {
            let ghost sofar = set_models(out@);
            let t = self.expression_domain(&all[i], names);
            let ghost model = t@;
            out.push(t);
            proof {
                assert(set_models(out@) =~= sofar.push(model));
                assert(target.take(i + 1) =~= target.take(i as int).push(target[i as int]));
                assert(set_models(out@) =~= before + target.take(i + 1));
            }
            i += 1;
        }
        proof {
            assert(target.take(all@.len() as int) =~= target);
        }
    }

    /// The domains to compute for an equation, in order.
    pub fn equation_expression_domains(&self, eq: &Equation) -> (r: Vec<SetTerm>)
        requires
            self.wf(),
        ensures
            set_models(r@) == equation_sets(*self.system, *eq),
    {
        let mut out: Vec<SetTerm> = Vec::new();
        proof {
            assert(set_models(out@) =~= Seq::<SetModel>::empty());
        }
        match eq {
            Equation::Standard(q) => match &q.expr {
                Some(x) => {
                    let t = self.expression_domain(x, &q.indices);
                    let ghost model = t@;
                    out.push(t);
                    proof {
                        assert(set_models(out@) =~= seq![model]);
                    }
                },
                None => {},
            },
            Equation::Use(u) => {
                let names = use_equation_context(u);
                self.push_domains(&u.outputs, &names, &mut out);
                self.push_domains(&u.inputs, &names, &mut out);
                proof {
                    assert(set_models(out@) =~= equation_sets(*self.system, *eq));
                }
            },
        }
        out
    }

    /// Where the context of a standard equation starts, and how it goes on from there.
    pub fn equation_context_domains(&self, eq: &StandardEquation, body: &SystemBody) -> (r: Option<
        (SetTerm, ContextPlan),
    >)
        requires
            self.wf(),
        ensures
            context_view(r) == equation_context(*self.system, *eq, *body),
    {
        match &eq.variable {
            None => None,
            Some(n) => {
                let variable = self.variable_domain(n.text.as_str());
                let params = self.system_body_domain(body);
                let start = combine(SetOp::IntersectParams, variable, params, eq.span);
                let plan = match &eq.expr {
                    Some(x) => self.context_domain(x, &eq.indices, None),
                    None => ContextPlan::Nothing,
                };
                Some((start, plan))
            },
        }
    }

    fn push_body(&self, body: &SystemBody, out: &mut Vec<EquationPlan>)
        requires
            self.wf(),
        ensures
            plan_models(final(out)@) == plan_models(old(out)@) + body_plans(*self.system, *body),
    {
        let ghost before = plan_models(out@);
        let ghost target = body_plans(*self.system, *body);
        let equations = &body.equations;
        let mut i: usize = 0;
        proof {
            assert(before + target.take(0) =~= before);
        }
        while i < equations.len()
            invariant
                self.wf(),
                equations@ == body.equations@,
                i <= equations@.len(),
                target == body_plans(*self.system, *body),
                plan_models(out@) == before + target.take(i as int),
            decreases equations@.len() - i,
        {
            let ghost sofar = plan_models(out@);
            let domains = self.equation_expression_domains(&equations[i]);
            let context = match &equations[i] {
                Equation::Standard(q) => self.equation_context_domains(q, body),
                Equation::Use(_) => None,
            };
            let plan = EquationPlan { domains, context };
            let ghost model = plan@;
            out.push(plan);
            proof {
                assert(model == equation_plan(*self.system, *body, equations@[i as int]));
                assert(plan_models(out@) =~= sofar.push(model));
                assert(target.take(i + 1) =~= target.take(i as int).push(target[i as int]));
                assert(plan_models(out@) =~= before + target.take(i + 1));
            }
            i += 1;
        }
        proof {
            assert(target.take(equations@.len() as int) =~= target);
        }
    }

    /// What is to be computed for every equation of the system, in order.
    pub fn analyze_system(&self) -> (r: Vec<EquationPlan>)
        requires
            self.wf(),
        ensures
            plan_models(r@) == system_plans(*self.system, self.system.bodies@),
    {
        let mut out: Vec<EquationPlan> = Vec::new();
        let bodies = &self.system.bodies;
        let mut i: usize = 0;
        proof {
            assert(plan_models(out@) =~= system_plans(*self.system, bodies@.take(0)));
        }
        while i < bodies.len()
            invariant
                self.wf(),
                i <= bodies@.len(),
                bodies@ == self.system.bodies@,
                plan_models(out@) == system_plans(*self.system, bodies@.take(i as int)),
            decreases bodies@.len() - i,
        {
            proof {
                let t = bodies@.take(i + 1);
                assert(t.drop_last() =~= bodies@.take(i as int));
                assert(t.last() == bodies@[i as int]);
            }
            self.push_body(&bodies[i], &mut out);
            i += 1;
        }
        proof {
            assert(bodies@.take(bodies@.len() as int) =~= bodies@);
        }
        out
    }
}

/// What came of carrying out the plan of one equation: for each of its domains, in order, and for
/// its context, with what it failed. What comes after a failure is not carried out.
#[derive(Debug)]
pub struct PlanOutcome {
    pub domains: Vec<Option<Diagnostic>>,
    pub context: Option<Diagnostic>,
}

pub open spec fn issue_of(d: Option<Diagnostic>) -> Option<Issue> {
    match d {
        Some(x) => Some(x@),
        None => None,
    }
}

/// The first failure from place `k` on.
pub open spec fn first_issue(all: Seq<Option<Diagnostic>>, k: int) -> Option<Issue>
    decreases all.len() - k,
{
    if k < 0 || k >= all.len() {
        None
    } else {
        first_of(issue_of(all[k]), first_issue(all, k + 1))
    }
}

/// What is reported of one plan: its first failure. The context counts where every domain came out.
pub open spec fn plan_issue(p: EquationPlanModel, o: PlanOutcome) -> Option<Issue> {
    first_of(
        first_issue(o.domains@, 0),
        if p.context is Some {
            issue_of(o.context)
        } else {
            None
        },
    )
}

/// What is reported of the first `n` plans, in order.
pub open spec fn plans_report(
    plans: Seq<EquationPlanModel>,
    outcomes: Seq<PlanOutcome>,
    n: nat,
) -> Seq<Issue>
    decreases n,
{
    if n == 0 {
        Seq::empty()
    } else {
        let before = plans_report(plans, outcomes, (n - 1) as nat);
        match plan_issue(plans[n - 1], outcomes[n - 1]) {
            Some(i) => before.push(i),
            None => before,
        }
    }
}

/// Every plan has an outcome, with one for each of its domains.
pub open spec fn outcomes_ok(plans: Seq<EquationPlanModel>, outcomes: Seq<PlanOutcome>) -> bool {
    &&& outcomes.len() == plans.len()
    &&& forall|i: int|
        0 <= i < plans.len() ==> (#[trigger] outcomes[i]).domains@.len() == plans[i].domains.len()
}

fn find_issue(all: &Vec<Option<Diagnostic>>) -> (r: Option<Diagnostic>)
    ensures
        issue_of(r) == first_issue(all@, 0),
{
    let mut i: usize = 0;
    while i < all.len()
        invariant
            i <= all@.len(),
            first_issue(all@, 0) == first_issue(all@, i as int),
        decreases all@.len() - i,
    {
        match &all[i] {
            Some(d) => return Some(d.clone()),
            None => {},
        }
        i += 1;
    }
    None
}

/// What is reported of the plans of a system, given what came of them.
pub fn report_plans(plans: &Vec<EquationPlan>, outcomes: &Vec<PlanOutcome>) -> (r: Vec<Diagnostic>)
    requires
        outcomes_ok(plan_models(plans@), outcomes@),
    ensures
        issues(r@) == plans_report(plan_models(plans@), outcomes@, plans@.len()),
{
    let ghost models = plan_models(plans@);
    let mut out: Vec<Diagnostic> = Vec::new();
    let mut i: usize = 0;
    proof {
        assert(issues(out@) =~= Seq::<Issue>::empty());
    }
    while i < plans.len()
        invariant
            i <= plans@.len(),
            models == plan_models(plans@),
            outcomes_ok(models, outcomes@),
            issues(out@) == plans_report(models, outcomes@, i as nat),
        decreases plans@.len() - i,
    {
        proof {
            assert(models[i as int] == plans@[i as int]@);
        }
        match find_issue(&outcomes[i].domains) {
            Some(d) => report(&mut out, d),
            None => match (&plans[i].context, &outcomes[i].context) {
                (Some(_), Some(d)) => report(&mut out, d.clone()),
                _ => {},
            },
        }
        i += 1;
    }
    out
}

/// With what the work for one equation fails, if it does: its domains first, in order, and then its
/// context, which goes by the domains.
pub open spec fn equation_failure(
    p: EquationPlanModel,
    domains: Map<usize, Set<Point>>,
    r: Reading,
) -> Option<Issue> {
    first_of(
        sets_failure(p.domains, r),
        match p.context {
            None => None,
            Some((start, plan)) => first_of(
                failure(start, r),
                plan_failure(plan, points(start, r), domains, r),
            ),
        },
    )
}

/// The outcome is what the work gives, as far as it is carried out.
pub open spec fn outcome_true(
    p: EquationPlanModel,
    o: PlanOutcome,
    domains: Map<usize, Set<Point>>,
    r: Reading,
) -> bool {
    &&& o.domains@.len() == p.domains.len()
    &&& forall|j: int|
        0 <= j < p.domains.len() && sets_failure(p.domains.take(j), r) is None ==> issue_of(
            #[trigger] o.domains@[j],
        ) == failure(p.domains[j], r)
    &&& p.context matches Some((start, plan)) ==> sets_failure(p.domains, r) is None ==> issue_of(
        o.context,
    ) == first_of(failure(start, r), plan_failure(plan, points(start, r), domains, r))
}

proof fn lemma_first_issue(
    p: EquationPlanModel,
    o: PlanOutcome,
    domains: Map<usize, Set<Point>>,
    r: Reading,
    k: int,
)
    requires
        outcome_true(p, o, domains, r),
        0 <= k <= p.domains.len(),
        sets_failure(p.domains.take(k), r) is None,
    ensures
        first_issue(o.domains@, k) == sets_failure(p.domains, r),
    decreases p.domains.len() - k,
{
    if k == p.domains.len() {
        assert(p.domains.take(k) =~= p.domains);
    } else {
        assert(issue_of(o.domains@[k]) == failure(p.domains[k], r));
        assert(p.domains.take(k + 1).drop_last() =~= p.domains.take(k));
        assert(p.domains.take(k + 1).last() == p.domains[k]);
        if failure(p.domains[k], r) is None {
            lemma_first_issue(p, o, domains, r, k + 1);
        } else {
            lemma_failure_stays(p.domains, r, k + 1);
        }
    }
}

proof fn lemma_failure_stays(sets: Seq<SetModel>, r: Reading, k: int)
    requires
        0 <= k <= sets.len(),
        sets_failure(sets.take(k), r) is Some,
    ensures
        sets_failure(sets, r) == sets_failure(sets.take(k), r),
    decreases sets.len(),
{
    if k == sets.len() {
        assert(sets.take(k) =~= sets);
    } else {
        assert(sets.drop_last().take(k) =~= sets.take(k));
        lemma_failure_stays(sets.drop_last(), r, k);
    }
}

/// What is reported of the plan of an equation is the failure of its work, and nothing where the
/// work does not fail: the first domain that fails hides what comes after it.
pub proof fn a_plan_reports_its_first_failure(
    p: EquationPlanModel,
    o: PlanOutcome,
    domains: Map<usize, Set<Point>>,
    r: Reading,
)
    requires
        outcome_true(p, o, domains, r),
    ensures
        plan_issue(p, o) == equation_failure(p, domains, r),
{
    assert(p.domains.take(0) =~= Seq::empty());
    lemma_first_issue(p, o, domains, r, 0);
}

/// Everything inside the standard equations of a body.
pub open spec fn exprs_in_equations(equations: Seq<Equation>) -> Seq<Expr>
    decreases equations.len(),
{
    if equations.len() == 0 {
        Seq::empty()
    } else {
        exprs_in_equations(equations.drop_last()) + match equations.last() {
            Equation::Standard(q) => match q.expr {
                Some(x) => subtree(x),
                None => Seq::empty(),
            },
            Equation::Use(_) => Seq::empty(),
        }
    }
}

/// Everything inside the standard equations of several bodies.
pub open spec fn exprs_in_bodies(bodies: Seq<SystemBody>) -> Seq<Expr>
    decreases bodies.len(),
{
    if bodies.len() == 0 {
        Seq::empty()
    } else {
        exprs_in_bodies(bodies.drop_last()) + exprs_in_equations(bodies.last().equations@)
    }
}

fn push_equation_exprs<'a>(equations: &'a Vec<Equation>, out: &mut Vec<&'a Expr>)
    ensures
        referred(final(out)@) == referred(old(out)@) + exprs_in_equations(equations@),
{
    let ghost before = referred(out@);
    let mut i: usize = 0;
    proof {
        assert(before + exprs_in_equations(equations@.take(0)) =~= before);
    }
    while i < equations.len()
        invariant
            i <= equations@.len(),
            referred(out@) == before + exprs_in_equations(equations@.take(i as int)),
        decreases equations@.len() - i,
    {
        proof {
            let t = equations@.take(i + 1);
            assert(t.drop_last() =~= equations@.take(i as int));
            assert(t.last() == equations@[i as int]);
        }
        match &equations[i] {
            Equation::Standard(q) => match &q.expr {
                Some(x) => walk_expr(x, out),
                None => {},
            },
            Equation::Use(_) => {},
        }
        proof {
            assert(referred(out@) =~= before + exprs_in_equations(equations@.take(i + 1)));
        }
        i += 1;
    }
    proof {
        assert(equations@.take(equations@.len() as int) =~= equations@);
    }
}

/// Everything inside the standard equations of a system.
fn for_each_standard_equation_expr<'a>(system: &'a System) -> (r: Vec<&'a Expr>)
    ensures
        referred(r@) == exprs_in_bodies(system.bodies@),
{
    let bodies = &system.bodies;
    let mut out: Vec<&'a Expr> = Vec::new();
    let mut i: usize = 0;
    proof {
        assert(referred(out@) =~= exprs_in_bodies(bodies@.take(0)));
    }
    while i < bodies.len()
        invariant
            i <= bodies@.len(),
            referred(out@) == exprs_in_bodies(bodies@.take(i as int)),
        decreases bodies@.len() - i,
    {
        proof {
            let t = bodies@.take(i + 1);
            assert(t.drop_last() =~= bodies@.take(i as int));
            assert(t.last() == bodies@[i as int]);
        }
        push_equation_exprs(&bodies[i].equations, &mut out);
        i += 1;
    }
    proof {
        assert(bodies@.take(bodies@.len() as int) =~= bodies@);
    }
    out
}

/// The case expressions among some expressions, each as its branches.
pub open spec fn cases_among(all: Seq<Expr>) -> Seq<Seq<Expr>>
    decreases all.len(),
{
    if all.len() == 0 {
        Seq::empty()
    } else {
        let before = cases_among(all.drop_last());
        match all.last().kind {
            ExprKind::Case { branches } => before.push(branches@),
            _ => before,
        }
    }
}

/// The reductions among some expressions, each as whether it has a body, and its range.
pub open spec fn reduces_among(all: Seq<Expr>) -> Seq<(bool, Span)>
    decreases all.len(),
{
    if all.len() == 0 {
        Seq::empty()
    } else {
        let before = reduces_among(all.drop_last());
        match all.last().kind {
            ExprKind::Reduce { projection, body } => before.push((body is Some, all.last().span)),
            _ => before,
        }
    }
}

/// The cases that have an answer coming, in order.
pub open spec fn system_cases(s: System) -> Seq<Seq<Expr>> {
    cases_among(exprs_in_bodies(s.bodies@))
}

/// The reductions that have an answer coming, in order.
pub open spec fn system_reduces(s: System) -> Seq<(bool, Span)> {
    reduces_among(exprs_in_bodies(s.bodies@))
}

/// One answer for each branch of each case.
pub open spec fn case_answers_ok(cases: Seq<Seq<Expr>>, answers: Seq<Vec<BranchAnswer>>) -> bool {
    &&& answers.len() == cases.len()
    &&& forall|i: int| 0 <= i < cases.len() ==> (#[trigger] answers[i])@.len() == cases[i].len()
}

pub open spec fn cases_report(
    cases: Seq<Seq<Expr>>,
    answers: Seq<Vec<BranchAnswer>>,
    n: nat,
) -> Seq<Issue>
    decreases n,
{
    if n == 0 {
        Seq::empty()
    } else {
        cases_report(cases, answers, (n - 1) as nat) + case_report(
            cases[n - 1],
            answers[n - 1]@,
        )
    }
}

pub open spec fn reduces_report(
    reduces: Seq<(bool, Span)>,
    answers: Seq<ReduceAnswer>,
    n: nat,
) -> Seq<Issue>
    decreases n,
{
    if n == 0 {
        Seq::empty()
    } else {
        reduces_report(reduces, answers, (n - 1) as nat) + reduce_report(
            reduces[n - 1].0,
            reduces[n - 1].1,
            answers[n - 1],
        )
    }
}

proof fn lemma_cases_prefix(all: Seq<Expr>, k: int)
    requires
        0 <= k <= all.len(),
    ensures
        cases_among(all.take(k)).is_prefix_of(cases_among(all)),
    decreases all.len(),
{
    if k < all.len() {
        assert(all.drop_last().take(k) =~= all.take(k));
        lemma_cases_prefix(all.drop_last(), k);
    } else {
        assert(all.take(k) =~= all);
    }
}

proof fn lemma_reduces_prefix(all: Seq<Expr>, k: int)
    requires
        0 <= k <= all.len(),
    ensures
        reduces_among(all.take(k)).is_prefix_of(reduces_among(all)),
    decreases all.len(),
{
    if k < all.len() {
        assert(all.drop_last().take(k) =~= all.take(k));
        lemma_reduces_prefix(all.drop_last(), k);
    } else {
        assert(all.take(k) =~= all);
    }
}

/// Checks every case of a system.
pub fn check_case_branches(system: &System, answers: &Vec<Vec<BranchAnswer>>) -> (r: Vec<
    Diagnostic,
>)
    requires
        case_answers_ok(system_cases(*system), answers@),
    ensures
        issues(r@) == cases_report(
            system_cases(*system),
            answers@,
            system_cases(*system).len(),
        ),
{
    let all = for_each_standard_equation_expr(system);
    let ghost exprs = referred(all@);
    let ghost cases = cases_among(exprs);
    let mut diags: Vec<Diagnostic> = Vec::new();
    let total: usize = answers.len();
    let mut seen: usize = 0;
    let mut i: usize = 0;
    proof {
        assert(issues(diags@) =~= Seq::<Issue>::empty());
        assert(cases == system_cases(*system));
    }
    while i < all.len()
        invariant
            i <= all@.len(),
            exprs == referred(all@),
            cases == cases_among(exprs),
            case_answers_ok(cases, answers@),
            seen == cases_among(exprs.take(i as int)).len(),
            total == answers@.len(),
            seen <= total,
            issues(diags@) == cases_report(cases, answers@, seen as nat),
        decreases all@.len() - i,
    {
        proof {
            let t = exprs.take(i + 1);
            assert(t.drop_last() =~= exprs.take(i as int));
            assert(t.last() == *all@[i as int]);
            lemma_cases_prefix(exprs, i + 1);
        }
        match &all[i].kind {
            ExprKind::Case { branches } => {
                proof {
                    let now = cases_among(exprs.take(i + 1));
                    assert(now[seen as int] == branches@);
                    assert(cases[seen as int] == now[seen as int]);
                    assert(answers@[seen as int]@.len() == cases[seen as int].len());
                }
                let more = check_one_case(branches, &answers[seen]);
                report_all(&mut diags, more);
                seen += 1;
            },
            _ => {},
        }
        i += 1;
    }
    proof {
        assert(exprs.take(all@.len() as int) =~= exprs);
    }
    diags
}

/// Checks every reduction of a system.
pub fn check_reduce_bounded(system: &System, answers: &Vec<ReduceAnswer>) -> (r: Vec<Diagnostic>)
    requires
        answers@.len() == system_reduces(*system).len(),
    ensures
        issues(r@) == reduces_report(
            system_reduces(*system),
            answers@,
            system_reduces(*system).len(),
        ),
{
    let all = for_each_standard_equation_expr(system);
    let ghost exprs = referred(all@);
    let ghost reduces = reduces_among(exprs);
    let mut diags: Vec<Diagnostic> = Vec::new();
    let total: usize = answers.len();
    let mut seen: usize = 0;
    let mut i: usize = 0;
    proof {
        assert(issues(diags@) =~= Seq::<Issue>::empty());
        assert(reduces == system_reduces(*system));
    }
    while i < all.len()
        invariant
            i <= all@.len(),
            exprs == referred(all@),
            reduces == reduces_among(exprs),
            answers@.len() == reduces.len(),
            seen == reduces_among(exprs.take(i as int)).len(),
            total == answers@.len(),
            seen <= total,
            issues(diags@) == reduces_report(reduces, answers@, seen as nat),
        decreases all@.len() - i,
    {
        proof {
            let t = exprs.take(i + 1);
            assert(t.drop_last() =~= exprs.take(i as int));
            assert(t.last() == *all@[i as int]);
            lemma_reduces_prefix(exprs, i + 1);
        }
        match &all[i].kind {
            ExprKind::Reduce { projection, body } => {
                proof {
                    let now = reduces_among(exprs.take(i + 1));
                    assert(now[seen as int] == (*body is Some, all@[i as int].span));
                    assert(reduces[seen as int] == now[seen as int]);
                }
                let more = check_one_reduce(body.is_some(), all[i].span, &answers[seen]);
                report_all(&mut diags, more);
                seen += 1;
            },
            _ => {},
        }
        i += 1;
    }
    proof {
        assert(exprs.take(all@.len() as int) =~= exprs);
    }
    diags
}

/// What came out for one equation.
#[derive(Debug)]
pub struct OutcomeOfEquation {
    /// For a standard equation.
    pub standard: EquationAnswer,
    /// For a use equation: whether it hands its own parameters on.
    pub identity: core::result::Result<bool, Diagnostic>,
}

/// What came out for a system.
#[derive(Debug)]
pub struct SystemAnswers {
    /// What came of the plans, in order.
    pub plans: Vec<PlanOutcome>,
    pub linear: LinearAnswers,
    pub bodies: BodiesAnswer,
    pub cases: Vec<Vec<BranchAnswer>>,
    pub reduces: Vec<ReduceAnswer>,
    /// For each body, one for each equation.
    pub equations: Vec<Vec<OutcomeOfEquation>>,
}

/// A system, and what it can call.
pub open spec fn world_of(
    system: System,
    signatures: Seq<(Seq<char>, PortModel)>,
    scope: Seq<char>,
) -> World {
    World { system, signatures, scope }
}

/// There is an answer to everything that is asked about a system.
pub open spec fn answers_ok(w: World, a: SystemAnswers) -> bool {
    let s = w.system;
    &&& system_ok(s)
    &&& outcomes_ok(system_plans(s, s.bodies@), a.plans@)
    &&& linear_answers_ok(w, a.linear)
    &&& a.bodies.bodies@.len() == s.bodies@.len()
    &&& case_answers_ok(system_cases(s), a.cases@)
    &&& a.reduces@.len() == system_reduces(s).len()
    &&& a.equations@.len() == s.bodies@.len()
    &&& forall|i: int|
        0 <= i < s.bodies@.len() ==> (#[trigger] a.equations@[i])@.len()
            == s.bodies@[i].equations@.len()
}

pub open spec fn outcome_report(s: System, eq: Equation, a: OutcomeOfEquation) -> Seq<Issue> {
    match eq {
        Equation::Standard(q) => equation_report(q, a.standard),
        Equation::Use(u) => recursion_report(u, s, a.identity),
    }
}

pub open spec fn outcomes_report(
    s: System,
    equations: Seq<Equation>,
    answers: Seq<OutcomeOfEquation>,
    n: nat,
) -> Seq<Issue>
    decreases n,
{
    if n == 0 {
        Seq::empty()
    } else {
        outcomes_report(s, equations, answers, (n - 1) as nat) + outcome_report(
            s,
            equations[n - 1],
            answers[n - 1],
        )
    }
}

pub open spec fn all_outcomes_report(s: System, answers: Seq<Vec<OutcomeOfEquation>>, n: nat) -> Seq<
    Issue,
>
    decreases n,
{
    if n == 0 {
        Seq::empty()
    } else {
        all_outcomes_report(s, answers, (n - 1) as nat) + outcomes_report(
            s,
            s.bodies@[n - 1].equations@,
            answers[n - 1]@,
            s.bodies@[n - 1].equations@.len(),
        )
    }
}

/// Everything that is reported of a system.
pub open spec fn system_report(w: World, a: SystemAnswers) -> Seq<Issue> {
    let s = w.system;
    plans_report(
        system_plans(s, s.bodies@),
        a.plans@,
        system_plans(s, s.bodies@).len(),
    ) + linear_report(w, a.linear) + system_clashes(s) + bodies_report(s, a.bodies) + cases_report(
        system_cases(s),
        a.cases@,
        system_cases(s).len(),
    ) + reduces_report(system_reduces(s), a.reduces@, system_reduces(s).len())
        + undefined_in_bodies(s, s.bodies@) + all_outcomes_report(
        s,
        a.equations@,
        s.bodies@.len(),
    )
}

fn report_outcomes(
    system: &System,
    equations: &Vec<Equation>,
    answers: &Vec<OutcomeOfEquation>,
    out: &mut Vec<Diagnostic>,
)
    requires
        answers@.len() == equations@.len(),
    ensures
        issues(final(out)@) == issues(old(out)@) + outcomes_report(
            *system,
            equations@,
            answers@,
            equations@.len(),
        ),
{
    let ghost before = issues(out@);
    let mut i: usize = 0;
    proof {
        assert(before + outcomes_report(*system, equations@, answers@, 0) =~= before);
    }
    while i < equations.len()
        invariant
            i <= equations@.len(),
            answers@.len() == equations@.len(),
            issues(out@) == before + outcomes_report(*system, equations@, answers@, i as nat),
        decreases equations@.len() - i,
    {
        let more = match &equations[i] {
            Equation::Standard(q) => check_standard_equation_completeness(
                q,
                &answers[i].standard,
            ),
            Equation::Use(u) => check_use_equation_recursion(u, system, &answers[i].identity),
        };
        report_all(out, more);
        proof {
            assert(issues(out@) =~= before + outcomes_report(
                *system,
                equations@,
                answers@,
                (i + 1) as nat,
            ));
        }
        i += 1;
    }
}

/// Everything that is reported of a system, in the order of the checks.
pub fn analyze_system_with_signatures(
    system: &System,
    signatures: &Vec<(String, PortSignature)>,
    scope: &str,
    a: &SystemAnswers,
) -> (r: Vec<Diagnostic>)
    requires
        answers_ok(world_of(*system, signature_views(signatures@), scope@), *a),
    ensures
        issues(r@) == system_report(
            world_of(*system, signature_views(signatures@), scope@),
            *a,
        ),
{
    let ghost w = world_of(*system, signature_views(signatures@), scope@);
    let resolver = Resolver::new(system);
    let planned = resolver.analyze_system();
    proof {
        assert(plan_models(planned@).len() == planned@.len());
    }
    let mut diags = report_plans(&planned, &a.plans);
    let uses = Uses { resolver: &resolver, signatures, scope };
    report_all(&mut diags, uses.check_system(&a.linear));
    report_all(&mut diags, check_system_uniqueness(system));
    report_all(&mut diags, check_system_bodies(system, &a.bodies));
    report_all(&mut diags, check_case_branches(system, &a.cases));
    report_all(&mut diags, check_reduce_bounded(system, &a.reduces));
    report_all(&mut diags, check_undefined_variables(system));
    let ghost before = issues(diags@);
    let bodies = &system.bodies;
    let mut i: usize = 0;
    proof {
        assert(before + all_outcomes_report(*system, a.equations@, 0) =~= before);
    }
    while i < bodies.len()
        invariant
            bodies@ == system.bodies@,
            i <= bodies@.len(),
            answers_ok(w, *a),
            w.system == *system,
            issues(diags@) == before + all_outcomes_report(*system, a.equations@, i as nat),
        decreases bodies@.len() - i,
    {
        proof {
            assert(a.equations@[i as int]@.len() == system.bodies@[i as int].equations@.len());
        }
        report_outcomes(system, &bodies[i].equations, &a.equations[i], &mut diags);
        proof {
            assert(issues(diags@) =~= before + all_outcomes_report(
                *system,
                a.equations@,
                (i + 1) as nat,
            ));
        }
        i += 1;
    }
    diags
}

/// Everything that is reported of a system that calls nothing else.
pub fn analyze_system(system: &System, a: &SystemAnswers) -> (r: Vec<Diagnostic>)
    requires
        answers_ok(world_of(*system, Seq::empty(), Seq::empty()), *a),
    ensures
        issues(r@) == system_report(world_of(*system, Seq::empty(), Seq::empty()), *a),
{
    let none: Vec<(String, PortSignature)> = Vec::new();
    proof {
        assert(signature_views(none@) =~= Seq::<(Seq<char>, PortModel)>::empty());
        reveal_strlit("");
        assert(""@ =~= Seq::<char>::empty());
    }
    analyze_system_with_signatures(system, &none, "", a)
}

} // verus!
