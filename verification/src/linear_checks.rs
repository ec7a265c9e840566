//! The checks of linear values: what is to be compared, and what is reported of a system.
use crate::completeness::failed_at;
use crate::diagnostic::{issue, issues, report, Diagnostic, Issue, IssueKind};
use crate::domain::{use_equation_context, use_names};
use crate::linear_calls::{
    all_equations, arity_fits, callee_name, equations_issues, find_equations, find_operation,
    operation_named, qubit_issues, referred,
};
use crate::linear_reads::{
    access_models, accesses, choice_models, choices, first_accesses, first_choices, step_models,
    Access, AccessModel, Choice, ChoiceModel, Place, PlaceModel, Step, StepModel,
};
use crate::linearity::{Uses, World};
use crate::multiplicity::Multiplicity;
use crate::resolve::{entries_of, entry_models, section_decls, EntryModel, Section};
use crate::syntax::{Equation, Expr, Span, StandardEquation, System, UseEquation};
use crate::text::{join, views};
use vstd::prelude::*;

verus! {

/// A call of an operation.
#[derive(Debug)]
pub struct Call {
    pub operation: String,
    pub at: Span,
    /// What each operand reads.
    pub operands: Vec<Vec<Access>>,
    /// The operands and the results.
    pub nodes: Vec<usize>,
    /// The points at which the call is made are not spelled out: they are those of its operands
    /// and results.
    pub implicit: bool,
}

/// A [`Call`] as a mathematical value.
pub struct CallModel {
    pub operation: Seq<char>,
    pub at: Span,
    pub operands: Seq<Seq<AccessModel>>,
    pub nodes: Seq<usize>,
    pub implicit: bool,
}

pub open spec fn operand_models(v: Seq<Vec<Access>>) -> Seq<Seq<AccessModel>> {
    Seq::new(v.len(), |i: int| access_models(v[i]@))
}

impl View for Call {
    type V = CallModel;

    open spec fn view(&self) -> CallModel {
        CallModel {
            operation: self.operation@,
            at: self.at,
            operands: operand_models(self.operands@),
            nodes: self.nodes@,
            implicit: self.implicit,
        }
    }
}

pub open spec fn call_models(v: Seq<Call>) -> Seq<CallModel> {
    Seq::new(v.len(), |i: int| v[i]@)
}

/// A linear variable whose points all have to be used.
#[derive(Debug)]
pub struct Held {
    pub name: String,
    pub at: Span,
}

/// A [`Held`] as a mathematical value.
pub struct HeldModel {
    pub name: Seq<char>,
    pub at: Span,
}

impl View for Held {
    type V = HeldModel;

    open spec fn view(&self) -> HeldModel {
        HeldModel { name: self.name@, at: self.at }
    }
}

pub open spec fn held_models(v: Seq<Held>) -> Seq<HeldModel> {
    Seq::new(v.len(), |i: int| v[i]@)
}

/// Where the right-hand side of an equation stands.
pub open spec fn definition_place(q: StandardEquation) -> PlaceModel {
    PlaceModel { names: views(q.indices@), steps: Seq::empty(), called: false }
}

/// Where the arguments of a call stand.
pub open spec fn call_place(u: UseEquation) -> PlaceModel {
    PlaceModel { names: use_names(u), steps: Seq::empty(), called: true }
}

pub open spec fn equation_accesses(s: System, eq: Equation) -> Seq<AccessModel> {
    match eq {
        Equation::Standard(q) => match q.expr {
            Some(x) => accesses(s, x, definition_place(q)),
            None => Seq::empty(),
        },
        Equation::Use(u) => first_accesses(s, u.inputs, u.inputs@.len(), call_place(u)),
    }
}

/// The reads of the first `n` equations.
pub open spec fn all_accesses(s: System, all: Seq<Equation>, n: nat) -> Seq<AccessModel>
    decreases n,
{
    if n == 0 || n > all.len() {
        Seq::empty()
    } else {
        all_accesses(s, all, (n - 1) as nat) + equation_accesses(s, all[n - 1])
    }
}

pub open spec fn equation_choices(w: World, eq: Equation) -> Seq<ChoiceModel> {
    match eq {
        Equation::Standard(q) => match q.expr {
            Some(x) => choices(w, x, definition_place(q)),
            None => Seq::empty(),
        },
        Equation::Use(u) => first_choices(w, u.inputs, u.inputs@.len(), call_place(u)),
    }
}

/// The choices between linear values in the first `n` equations.
pub open spec fn all_choices(w: World, all: Seq<Equation>, n: nat) -> Seq<ChoiceModel>
    decreases n,
{
    if n == 0 || n > all.len() {
        Seq::empty()
    } else {
        all_choices(w, all, (n - 1) as nat) + equation_choices(w, all[n - 1])
    }
}

pub open spec fn nodes_of(v: Seq<Expr>) -> Seq<usize> {
    Seq::new(v.len(), |i: int| v[i].node)
}

pub open spec fn call_of(s: System, u: UseEquation, name: Seq<char>) -> CallModel {
    CallModel {
        operation: name,
        at: u.span,
        operands: Seq::new(u.inputs@.len(), |i: int| accesses(s, u.inputs@[i], call_place(u))),
        nodes: nodes_of(u.inputs@) + nodes_of(u.outputs@),
        implicit: u.over is None,
    }
}

/// The call that an equation makes of an operation, with as many values as that has.
pub open spec fn equation_calls(s: System, eq: Equation) -> Seq<CallModel> {
    match eq {
        Equation::Standard(_) => Seq::empty(),
        Equation::Use(u) => match callee_name(u) {
            None => Seq::empty(),
            Some(name) => match operation_named(name) {
                None => Seq::empty(),
                Some(op) => if arity_fits(u, op) {
                    seq![call_of(s, u, name)]
                } else {
                    Seq::empty()
                },
            },
        },
    }
}

pub open spec fn all_calls(s: System, all: Seq<Equation>, n: nat) -> Seq<CallModel>
    decreases n,
{
    if n == 0 || n > all.len() {
        Seq::empty()
    } else {
        all_calls(s, all, (n - 1) as nat) + equation_calls(s, all[n - 1])
    }
}

/// What a system has to use up: its linear inputs and locals. Outputs are used by the caller.
pub open spec fn held_by(s: System, e: EntryModel) -> Seq<HeldModel> {
    if e.multiplicity == Multiplicity::Linear && e.section != Section::Outputs {
        seq![HeldModel { name: e.name, at: section_decls(s, e.section)[e.index].span }]
    } else {
        Seq::empty()
    }
}

pub open spec fn all_held(s: System, n: nat) -> Seq<HeldModel>
    decreases n,
{
    if n == 0 || n > entries_of(s).len() {
        Seq::empty()
    } else {
        all_held(s, (n - 1) as nat) + held_by(s, entries_of(s)[n - 1])
    }
}

/// What is to be compared.
#[derive(Debug)]
pub struct LinearPlan {
    pub accesses: Vec<Access>,
    pub choices: Vec<Choice>,
    pub calls: Vec<Call>,
    pub held: Vec<Held>,
}

/// A [`LinearPlan`] as a mathematical value.
pub struct LinearModel {
    pub accesses: Seq<AccessModel>,
    pub choices: Seq<ChoiceModel>,
    pub calls: Seq<CallModel>,
    pub held: Seq<HeldModel>,
}

impl View for LinearPlan {
    type V = LinearModel;

    open spec fn view(&self) -> LinearModel {
        LinearModel {
            accesses: access_models(self.accesses@),
            choices: choice_models(self.choices@),
            calls: call_models(self.calls@),
            held: held_models(self.held@),
        }
    }
}

pub open spec fn plan_of(w: World) -> LinearModel {
    let all = all_equations(w.system);
    LinearModel {
        accesses: all_accesses(w.system, all, all.len()),
        choices: all_choices(w, all, all.len()),
        calls: all_calls(w.system, all, all.len()),
        held: all_held(w.system, entries_of(w.system).len()),
    }
}

/// The answer to a yes-or-no question, or the message with which finding it failed.
pub type Verdict = core::result::Result<bool, String>;

/// What came out of the comparisons.
#[derive(Debug)]
pub struct LinearAnswers {
    /// For each choice, whether the branches take different points.
    pub choices: Vec<Verdict>,
    /// For each read, whether it takes a point more than once.
    pub repeats: Vec<Verdict>,
    /// For each read, whether it takes a point that an earlier read of the variable takes.
    pub overlaps: Vec<Verdict>,
    /// For each call, whether two operands are the same point.
    pub aliased: Vec<Verdict>,
    /// For each call, whether the values are defined over different points.
    pub differs: Vec<Verdict>,
    /// For each variable, the points that no read takes, if there are any.
    pub unused: Vec<core::result::Result<Option<String>, String>>,
}

pub open spec fn linear_answers_ok(w: World, a: LinearAnswers) -> bool {
    let p = plan_of(w);
    &&& a.choices@.len() == p.choices.len()
    &&& a.repeats@.len() == p.accesses.len()
    &&& a.overlaps@.len() == p.accesses.len()
    &&& a.aliased@.len() == p.calls.len()
    &&& a.differs@.len() == p.calls.len()
    &&& a.unused@.len() == p.held.len()
}

/// `found`, where the answer is yes; the failure, where there is no answer.
pub open spec fn verdict_report(found: Issue, at: Span, a: Verdict) -> Seq<Issue> {
    match a {
        Err(m) => seq![failed_at(m@, at)],
        Ok(yes) => if yes {
            seq![found]
        } else {
            Seq::empty()
        },
    }
}

pub open spec fn choices_report(all: Seq<ChoiceModel>, a: Seq<Verdict>, n: nat) -> Seq<Issue>
    decreases n,
{
    if n == 0 || n > all.len() {
        Seq::empty()
    } else {
        choices_report(all, a, (n - 1) as nat) + verdict_report(
            issue(IssueKind::LinearBranchMismatch, seq![], all[n - 1].at.pair()),
            all[n - 1].at,
            a[n - 1],
        )
    }
}

pub open spec fn accesses_report(
    all: Seq<AccessModel>,
    repeats: Seq<Verdict>,
    overlaps: Seq<Verdict>,
    n: nat,
) -> Seq<Issue>
    decreases n,
{
    if n == 0 || n > all.len() {
        Seq::empty()
    } else {
        let x = all[n - 1];
        accesses_report(all, repeats, overlaps, (n - 1) as nat) + verdict_report(
            issue(IssueKind::LinearUseNotInjective, seq![x.variable], x.at.pair()),
            x.at,
            repeats[n - 1],
        ) + verdict_report(
            issue(IssueKind::LinearUsesOverlap, seq![x.variable], x.at.pair()),
            x.at,
            overlaps[n - 1],
        )
    }
}

/// A call whose points are spelled out need not have values that are defined at those alone.
pub open spec fn calls_report(
    all: Seq<CallModel>,
    aliased: Seq<Verdict>,
    differs: Seq<Verdict>,
    n: nat,
) -> Seq<Issue>
    decreases n,
{
    if n == 0 || n > all.len() {
        Seq::empty()
    } else {
        let c = all[n - 1];
        calls_report(all, aliased, differs, (n - 1) as nat) + verdict_report(
            issue(IssueKind::OperationOperandAliased, seq![c.operation], c.at.pair()),
            c.at,
            aliased[n - 1],
        ) + if c.implicit {
            verdict_report(
                issue(IssueKind::CallDomainMismatch, seq![c.operation], c.at.pair()),
                c.at,
                differs[n - 1],
            )
        } else {
            Seq::empty()
        }
    }
}

pub open spec fn unused_report(
    h: HeldModel,
    a: core::result::Result<Option<String>, String>,
) -> Seq<Issue> {
    match a {
        Err(m) => seq![failed_at(m@, h.at)],
        Ok(None) => Seq::empty(),
        Ok(Some(d)) => seq![issue(IssueKind::LinearValueUnconsumed, seq![h.name, d@], h.at.pair())],
    }
}

pub open spec fn held_report(
    all: Seq<HeldModel>,
    a: Seq<core::result::Result<Option<String>, String>>,
    n: nat,
) -> Seq<Issue>
    decreases n,
{
    if n == 0 || n > all.len() {
        Seq::empty()
    } else {
        held_report(all, a, (n - 1) as nat) + unused_report(all[n - 1], a[n - 1])
    }
}

/// Everything that is reported of the linear values of a system.
pub open spec fn linear_report(w: World, a: LinearAnswers) -> Seq<Issue> {
    let p = plan_of(w);
    let all = all_equations(w.system);
    qubit_issues(w.system, entries_of(w.system).len()) + equations_issues(w, all, all.len())
        + choices_report(p.choices, a.choices@, p.choices.len()) + accesses_report(
        p.accesses,
        a.repeats@,
        a.overlaps@,
        p.accesses.len(),
    ) + calls_report(p.calls, a.aliased@, a.differs@, p.calls.len()) + held_report(
        p.held,
        a.unused@,
        p.held.len(),
    )
}

fn definition_start(q: &StandardEquation) -> (r: Place)
    ensures
        r@ == definition_place(*q),
{
    let steps: Vec<Step> = Vec::new();
    proof {
        assert(step_models(steps@) =~= Seq::<StepModel>::empty());
    }
    Place { names: crate::context_names::copy_all(&q.indices), steps, called: false }
}

fn call_start(u: &UseEquation) -> (r: Place)
    ensures
        r@ == call_place(*u),
{
    let steps: Vec<Step> = Vec::new();
    proof {
        assert(step_models(steps@) =~= Seq::<StepModel>::empty());
    }
    Place { names: use_equation_context(u), steps, called: true }
}

fn push_nodes(v: &Vec<Expr>, out: &mut Vec<usize>)
    ensures
        final(out)@ == old(out)@ + nodes_of(v@),
{
    let ghost before = out@;
    let ghost all = nodes_of(v@);
    let mut i: usize = 0;
    proof {
        assert(before + all.take(0) =~= before);
    }
    while i < v.len()
        invariant
            i <= v@.len(),
            all == nodes_of(v@),
            out@ == before + all.take(i as int),
        decreases v@.len() - i,
    {
        out.push(v[i].node);
        proof {
            assert(out@ =~= before + all.take(i + 1));
        }
        i += 1;
    }
    proof {
        assert(all.take(all.len() as int) =~= all);
    }
}

fn report_verdict(found: Diagnostic, at: Span, a: &Verdict, out: &mut Vec<Diagnostic>)
    ensures
        issues(final(out)@) == issues(old(out)@) + verdict_report(found@, at, *a),
{
    let ghost before = issues(out@);
    let ghost wanted = verdict_report(found@, at, *a);
    match a {
        Err(m) => report(
            out,
            Diagnostic::IslError { message: m.clone(), start: at.start, end: at.end },
        ),
        Ok(yes) => if *yes {
            report(out, found);
        },
    }
    proof {
        assert(issues(out@) =~= before + wanted);
    }
}

impl<'a> Uses<'a> {
    fn find_accesses(&self, all: &Vec<&Equation>) -> (r: Vec<Access>)
        requires
            self.wf(),
        ensures
            access_models(r@) == all_accesses(self.world().system, referred(all@), all@.len()),
    {
        let ghost s = self.world().system;
        let ghost models = referred(all@);
        let mut out: Vec<Access> = Vec::new();
        let mut i: usize = 0;
        proof {
            assert(access_models(out@) =~= Seq::<AccessModel>::empty());
        }
        while i < all.len()
            invariant
                i <= all@.len(),
                self.wf(),
                s == self.world().system,
                models == referred(all@),
                access_models(out@) == all_accesses(s, models, i as nat),
            decreases all@.len() - i,
        {
            let ghost before = access_models(out@);
            match all[i] {
                Equation::Standard(q) => match &q.expr {
                    Some(x) => {
                        let p = definition_start(q);
                        self.push_accesses(x, &p, &mut out);
                    },
                    None => {},
                },
                Equation::Use(u) => {
                    let p = call_start(u);
                    self.push_each_access(&u.inputs, &p, &mut out);
                },
            }
            proof {
                assert(models[i as int] == *all@[i as int]);
                assert(access_models(out@) =~= before + equation_accesses(s, models[i as int]));
            }
            i += 1;
        }
        out
    }

    fn find_choices(&self, all: &Vec<&Equation>) -> (r: Vec<Choice>)
        requires
            self.wf(),
        ensures
            choice_models(r@) == all_choices(self.world(), referred(all@), all@.len()),
    {
        let ghost w = self.world();
        let ghost models = referred(all@);
        let mut out: Vec<Choice> = Vec::new();
        let mut i: usize = 0;
        proof {
            assert(choice_models(out@) =~= Seq::<ChoiceModel>::empty());
        }
        while i < all.len()
            invariant
                i <= all@.len(),
                self.wf(),
                w == self.world(),
                models == referred(all@),
                choice_models(out@) == all_choices(w, models, i as nat),
            decreases all@.len() - i,
        {
            let ghost before = choice_models(out@);
            match all[i] {
                Equation::Standard(q) => match &q.expr {
                    Some(x) => {
                        let p = definition_start(q);
                        self.push_choices(x, &p, &mut out);
                    },
                    None => {},
                },
                Equation::Use(u) => {
                    let p = call_start(u);
                    self.push_each_choice(&u.inputs, &p, &mut out);
                },
            }
            proof {
                assert(models[i as int] == *all@[i as int]);
                assert(choice_models(out@) =~= before + equation_choices(w, models[i as int]));
            }
            i += 1;
        }
        out
    }

    fn make_call(&self, u: &UseEquation, name: String) -> (r: Call)
        requires
            self.wf(),
        ensures
            r@ == call_of(self.world().system, *u, name@),
    {
        let ghost s = self.world().system;
        let ghost wanted = call_of(s, *u, name@);
        let p = call_start(u);
        let mut operands: Vec<Vec<Access>> = Vec::new();
        let mut i: usize = 0;
        proof {
            assert(operand_models(operands@) =~= wanted.operands.take(0));
        }
        while i < u.inputs.len()
            invariant
                i <= u.inputs@.len(),
                self.wf(),
                s == self.world().system,
                p@ == call_place(*u),
                wanted.operands == Seq::new(
                    u.inputs@.len(),
                    |i: int| accesses(s, u.inputs@[i], call_place(*u)),
                ),
                operand_models(operands@) == wanted.operands.take(i as int),
            decreases u.inputs@.len() - i,
        {
            let ghost sofar = operand_models(operands@);
            let mut reads: Vec<Access> = Vec::new();
            proof {
                assert(access_models(reads@) =~= Seq::<AccessModel>::empty());
            }
            self.push_accesses(&u.inputs[i], &p, &mut reads);
            proof {
                assert(access_models(reads@) =~= wanted.operands[i as int]);
            }
            operands.push(reads);
            proof {
                assert(operand_models(operands@) =~= sofar.push(wanted.operands[i as int]));
                assert(wanted.operands.take(i + 1) =~= wanted.operands.take(i as int).push(
                    wanted.operands[i as int],
                ));
            }
            i += 1;
        }
        let mut nodes: Vec<usize> = Vec::new();
        push_nodes(&u.inputs, &mut nodes);
        push_nodes(&u.outputs, &mut nodes);
        proof {
            assert(wanted.operands.take(u.inputs@.len() as int) =~= wanted.operands);
            assert(nodes@ =~= wanted.nodes);
        }
        Call { operation: name, at: u.span, operands, nodes, implicit: u.over.is_none() }
    }

    fn find_calls(&self, all: &Vec<&Equation>) -> (r: Vec<Call>)
        requires
            self.wf(),
        ensures
            call_models(r@) == all_calls(self.world().system, referred(all@), all@.len()),
    {
        let ghost s = self.world().system;
        let ghost models = referred(all@);
        let mut out: Vec<Call> = Vec::new();
        let mut i: usize = 0;
        proof {
            assert(call_models(out@) =~= Seq::<CallModel>::empty());
        }
        while i < all.len()
            invariant
                i <= all@.len(),
                self.wf(),
                s == self.world().system,
                models == referred(all@),
                call_models(out@) == all_calls(s, models, i as nat),
            decreases all@.len() - i,
        {
            let ghost before = call_models(out@);
            if let Equation::Use(u) = all[i] {
                if let Some(segments) = &u.callee {
                    let name = join(segments, ".");
                    if let Some(sig) = find_operation(name.as_str()) {
                        if u.inputs.len() == sig.inputs.len() && u.outputs.len()
                            == sig.outputs.len() {
                            let c = self.make_call(u, name);
                            let ghost model = c@;
                            out.push(c);
                            proof {
                                assert(call_models(out@) =~= before.push(model));
                            }
                        }
                    }
                }
            }
            proof {
                assert(models[i as int] == *all@[i as int]);
                assert(call_models(out@) =~= before + equation_calls(s, models[i as int]));
            }
            i += 1;
        }
        out
    }

    fn find_held(&self) -> (r: Vec<Held>)
        requires
            self.wf(),
        ensures
            held_models(r@) == all_held(
                self.world().system,
                entries_of(self.world().system).len(),
            ),
    {
        let r = self.resolver;
        let ghost s = self.world().system;
        let mut out: Vec<Held> = Vec::new();
        let mut i: usize = 0;
        proof {
            assert(entry_models(r.entries@).len() == r.entries@.len());
            assert(held_models(out@) =~= Seq::<HeldModel>::empty());
        }
        while i < r.entries.len()
            invariant
                i <= r.entries@.len(),
                r == self.resolver,
                self.wf(),
                s == self.world().system,
                entry_models(r.entries@) == entries_of(s),
                r.entries@.len() == entries_of(s).len(),
                held_models(out@) == all_held(s, i as nat),
            decreases r.entries@.len() - i,
        {
            let ghost before = held_models(out@);
            proof {
                assert(entry_models(r.entries@)[i as int] == r.entries@[i as int]@);
            }
            if r.entries[i].multiplicity == Multiplicity::Linear && r.entries[i].section
                != Section::Outputs {
                let h = Held { name: r.entries[i].name.clone(), at: r.declaration(i).span };
                let ghost model = h@;
                out.push(h);
                proof {
                    assert(held_models(out@) =~= before.push(model));
                }
            }
            proof {
                assert(held_models(out@) =~= before + held_by(s, entries_of(s)[i as int]));
            }
            i += 1;
        }
        out
    }

    /// What is to be compared for the linear values of a system.
    pub fn linear_plan(&self) -> (r: LinearPlan)
        requires
            self.wf(),
        ensures
            r@ == plan_of(self.world()),
    {
        let all = find_equations(self.resolver.system);
        proof {
            assert(referred(all@).len() == all@.len());
        }
        LinearPlan {
            accesses: self.find_accesses(&all),
            choices: self.find_choices(&all),
            calls: self.find_calls(&all),
            held: self.find_held(),
        }
    }

    /// Checks that every point of a linear variable is used exactly once.
    pub fn check_system(&self, a: &LinearAnswers) -> (r: Vec<Diagnostic>)
        requires
            self.wf(),
            linear_answers_ok(self.world(), *a),
        ensures
            issues(r@) == linear_report(self.world(), *a),
    {
        let mut out: Vec<Diagnostic> = Vec::new();
        proof {
            assert(issues(out@) =~= Seq::<Issue>::empty());
        }
        let all = find_equations(self.resolver.system);
        let plan = self.linear_plan();
        proof {
            assert(referred(all@).len() == all@.len());
            assert(plan@.choices.len() == plan.choices@.len());
            assert(plan@.accesses.len() == plan.accesses@.len());
            assert(plan@.calls.len() == plan.calls@.len());
            assert(plan@.held.len() == plan.held@.len());
        }
        self.report_qubits(&mut out);
        self.report_equations(&all, &mut out);
        report_choices(&plan.choices, &a.choices, &mut out);
        report_accesses(&plan.accesses, &a.repeats, &a.overlaps, &mut out);
        report_calls(&plan.calls, &a.aliased, &a.differs, &mut out);
        report_held(&plan.held, &a.unused, &mut out);
        proof {
            assert(issues(out@) =~= linear_report(self.world(), *a));
        }
        out
    }
}

fn report_choices(all: &Vec<Choice>, a: &Vec<Verdict>, out: &mut Vec<Diagnostic>)
    requires
        a@.len() == all@.len(),
    ensures
        issues(final(out)@) == issues(old(out)@) + choices_report(
            choice_models(all@),
            a@,
            all@.len(),
        ),
{
    let ghost models = choice_models(all@);
    let ghost before = issues(out@);
    let mut i: usize = 0;
    proof {
        assert(before + choices_report(models, a@, 0) =~= before);
    }
    while i < all.len()
        invariant
            i <= all@.len(),
            a@.len() == all@.len(),
            models == choice_models(all@),
            issues(out@) == before + choices_report(models, a@, i as nat),
        decreases all@.len() - i,
    {
        let at = all[i].at;
        report_verdict(
            Diagnostic::LinearBranchMismatch { start: at.start, end: at.end },
            at,
            &a[i],
            out,
        );
        proof {
            assert(models[i as int] == all@[i as int]@);
            assert(issues(out@) =~= before + choices_report(models, a@, (i + 1) as nat));
        }
        i += 1;
    }
}

fn report_accesses(
    all: &Vec<Access>,
    repeats: &Vec<Verdict>,
    overlaps: &Vec<Verdict>,
    out: &mut Vec<Diagnostic>,
)
    requires
        repeats@.len() == all@.len(),
        overlaps@.len() == all@.len(),
    ensures
        issues(final(out)@) == issues(old(out)@) + accesses_report(
            access_models(all@),
            repeats@,
            overlaps@,
            all@.len(),
        ),
{
    let ghost models = access_models(all@);
    let ghost before = issues(out@);
    let mut i: usize = 0;
    proof {
        assert(before + accesses_report(models, repeats@, overlaps@, 0) =~= before);
    }
    while i < all.len()
        invariant
            i <= all@.len(),
            repeats@.len() == all@.len(),
            overlaps@.len() == all@.len(),
            models == access_models(all@),
            issues(out@) == before + accesses_report(models, repeats@, overlaps@, i as nat),
        decreases all@.len() - i,
    {
        let at = all[i].at;
        report_verdict(
            Diagnostic::LinearUseNotInjective {
                variable: all[i].variable.clone(),
                start: at.start,
                end: at.end,
            },
            at,
            &repeats[i],
            out,
        );
        report_verdict(
            Diagnostic::LinearUsesOverlap {
                variable: all[i].variable.clone(),
                start: at.start,
                end: at.end,
            },
            at,
            &overlaps[i],
            out,
        );
        proof {
            assert(models[i as int] == all@[i as int]@);
            assert(issues(out@) =~= before + accesses_report(
                models,
                repeats@,
                overlaps@,
                (i + 1) as nat,
            ));
        }
        i += 1;
    }
}

fn report_calls(
    all: &Vec<Call>,
    aliased: &Vec<Verdict>,
    differs: &Vec<Verdict>,
    out: &mut Vec<Diagnostic>,
)
    requires
        aliased@.len() == all@.len(),
        differs@.len() == all@.len(),
    ensures
        issues(final(out)@) == issues(old(out)@) + calls_report(
            call_models(all@),
            aliased@,
            differs@,
            all@.len(),
        ),
{
    let ghost models = call_models(all@);
    let ghost before = issues(out@);
    let mut i: usize = 0;
    proof {
        assert(before + calls_report(models, aliased@, differs@, 0) =~= before);
    }
    while i < all.len()
        invariant
            i <= all@.len(),
            aliased@.len() == all@.len(),
            differs@.len() == all@.len(),
            models == call_models(all@),
            issues(out@) == before + calls_report(models, aliased@, differs@, i as nat),
        decreases all@.len() - i,
    {
        let at = all[i].at;
        report_verdict(
            Diagnostic::OperationOperandAliased {
                operation: all[i].operation.clone(),
                start: at.start,
                end: at.end,
            },
            at,
            &aliased[i],
            out,
        );
        if all[i].implicit {
            report_verdict(
                Diagnostic::CallDomainMismatch {
                    operation: all[i].operation.clone(),
                    start: at.start,
                    end: at.end,
                },
                at,
                &differs[i],
                out,
            );
        }
        proof {
            assert(models[i as int] == all@[i as int]@);
            assert(issues(out@) =~= before + calls_report(
                models,
                aliased@,
                differs@,
                (i + 1) as nat,
            ));
        }
        i += 1;
    }
}

fn report_held(
    all: &Vec<Held>,
    a: &Vec<core::result::Result<Option<String>, String>>,
    out: &mut Vec<Diagnostic>,
)
    requires
        a@.len() == all@.len(),
    ensures
        issues(final(out)@) == issues(old(out)@) + held_report(held_models(all@), a@, all@.len()),
{
    let ghost models = held_models(all@);
    let ghost before = issues(out@);
    let mut i: usize = 0;
    proof {
        assert(before + held_report(models, a@, 0) =~= before);
    }
    while i < all.len()
        invariant
            i <= all@.len(),
            a@.len() == all@.len(),
            models == held_models(all@),
            issues(out@) == before + held_report(models, a@, i as nat),
        decreases all@.len() - i,
    {
        let at = all[i].at;
        match &a[i] {
            Err(m) => report(
                out,
                Diagnostic::IslError { message: m.clone(), start: at.start, end: at.end },
            ),
            Ok(None) => {},
            Ok(Some(d)) => report(
                out,
                Diagnostic::LinearValueUnconsumed {
                    variable: all[i].name.clone(),
                    detail: d.clone(),
                    start: at.start,
                    end: at.end,
                },
            ),
        }
        proof {
            assert(models[i as int] == all@[i as int]@);
            assert(issues(out@) =~= before + held_report(models, a@, (i + 1) as nat));
        }
        i += 1;
    }
}

} // verus!
