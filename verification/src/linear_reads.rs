//! Which points of linear variables an expression takes.
//!
//! A read is given by the variable and by the dependences on the way to it: each of them sends the
//! points where its own value is needed on to the points that are read below it. Whether two reads
//! meet, and what they leave out, is up to the polyhedral library.
use crate::domain::restriction;
use crate::function::function_value;
use crate::linearity::{is_linear, part_linear, Uses, World};
use crate::polyhedral::{FunctionModel, FunctionTerm};
use crate::syntax::{Expr, ExprKind, Span, System};
use crate::text::views;
use vstd::prelude::*;

verus! {

/// A dependence on the way to a read.
#[derive(Debug)]
pub struct Step {
    /// The dependence itself: the points where it is needed are known by its node.
    pub node: usize,
    pub function: FunctionTerm,
}

/// A [`Step`] as a mathematical value.
pub struct StepModel {
    pub node: usize,
    pub function: FunctionModel,
}

impl View for Step {
    type V = StepModel;

    open spec fn view(&self) -> StepModel {
        StepModel { node: self.node, function: self.function@ }
    }
}

pub open spec fn step_models(v: Seq<Step>) -> Seq<StepModel> {
    Seq::new(v.len(), |i: int| v[i]@)
}

/// A read of a linear variable.
#[derive(Debug)]
pub struct Access {
    pub variable: String,
    pub node: usize,
    pub at: Span,
    /// The dependences on the way, the outermost first.
    pub steps: Vec<Step>,
    /// The read is an argument of a call, which is made wherever its arguments are defined.
    pub called: bool,
}

/// An [`Access`] as a mathematical value.
pub struct AccessModel {
    pub variable: Seq<char>,
    pub node: usize,
    pub at: Span,
    pub steps: Seq<StepModel>,
    pub called: bool,
}

impl View for Access {
    type V = AccessModel;

    open spec fn view(&self) -> AccessModel {
        AccessModel {
            variable: self.variable@,
            node: self.node,
            at: self.at,
            steps: step_models(self.steps@),
            called: self.called,
        }
    }
}

pub open spec fn access_models(v: Seq<Access>) -> Seq<AccessModel> {
    Seq::new(v.len(), |i: int| v[i]@)
}

/// An `if` with linear branches: both have to take the same points.
#[derive(Debug)]
pub struct Choice {
    pub at: Span,
    pub first: Vec<Access>,
    pub second: Vec<Access>,
}

/// A [`Choice`] as a mathematical value.
pub struct ChoiceModel {
    pub at: Span,
    pub first: Seq<AccessModel>,
    pub second: Seq<AccessModel>,
}

impl View for Choice {
    type V = ChoiceModel;

    open spec fn view(&self) -> ChoiceModel {
        ChoiceModel {
            at: self.at,
            first: access_models(self.first@),
            second: access_models(self.second@),
        }
    }
}

pub open spec fn choice_models(v: Seq<Choice>) -> Seq<ChoiceModel> {
    Seq::new(v.len(), |i: int| v[i]@)
}

/// Where an expression stands: the index names in scope, the dependences around it, and whether it
/// is an argument of a call.
pub struct PlaceModel {
    pub names: Seq<Seq<char>>,
    pub steps: Seq<StepModel>,
    pub called: bool,
}

/// The place inside a restriction.
pub open spec fn restricted(s: System, e: Expr, p: PlaceModel) -> PlaceModel {
    match e.kind {
        ExprKind::Restrict { domain, expr } => PlaceModel {
            names: restriction(s, domain, e.span, p.names).1,
            ..p
        },
        _ => p,
    }
}

/// The place inside a dependence.
pub open spec fn depending(s: System, e: Expr, p: PlaceModel) -> PlaceModel {
    match e.kind {
        ExprKind::Dependence { function, expr } => match function {
            Some(f) => PlaceModel {
                steps: p.steps.push(
                    StepModel { node: e.node, function: function_value(s, f, p.names) },
                ),
                ..p
            },
            None => p,
        },
        _ => p,
    }
}

pub open spec fn part_accesses(s: System, part: Option<Box<Expr>>, p: PlaceModel) -> Seq<
    AccessModel,
>
    decreases part, 0int,
{
    match part {
        None => Seq::empty(),
        Some(e) => accesses(s, *e, p),
    }
}

pub open spec fn first_accesses(s: System, v: Vec<Expr>, n: nat, p: PlaceModel) -> Seq<AccessModel>
    decreases v, n,
{
    if n == 0 || n > v@.len() {
        Seq::empty()
    } else {
        first_accesses(s, v, (n - 1) as nat, p) + accesses(s, v@[n - 1], p)
    }
}

/// The reads of linear variables that an expression makes, from left to right. Of the branches of
/// an `if` one is taken, and both have to read the same, so the first stands for both.
pub open spec fn accesses(s: System, e: Expr, p: PlaceModel) -> Seq<AccessModel>
    decreases e, 0int,
{
    match e.kind {
        ExprKind::Variable { name } => match name {
            Some(n) => if is_linear(s, n@) {
                seq![
                    AccessModel {
                        variable: n@,
                        node: e.node,
                        at: e.span,
                        steps: p.steps,
                        called: p.called,
                    },
                ]
            } else {
                Seq::empty()
            },
            None => Seq::empty(),
        },
        ExprKind::Paren { inner } => part_accesses(s, inner, p),
        ExprKind::AutoRestrict { expr } => part_accesses(s, expr, p),
        ExprKind::Restrict { domain, expr } => part_accesses(s, expr, restricted(s, e, p)),
        ExprKind::Dependence { function, expr } => part_accesses(s, expr, depending(s, e, p)),
        ExprKind::Case { branches } => first_accesses(s, branches, branches@.len(), p),
        ExprKind::If { cond, then_branch, else_branch } => part_accesses(s, cond, p)
            + part_accesses(s, then_branch, p),
        ExprKind::Unary { operator, operand } => part_accesses(s, operand, p),
        ExprKind::Binary { operator, lhs, rhs } => part_accesses(s, lhs, p) + part_accesses(
            s,
            rhs,
            p,
        ),
        ExprKind::MultiArg { operator, args } => first_accesses(s, args, args@.len(), p),
        _ => Seq::empty(),
    }
}

pub open spec fn part_choices(w: World, part: Option<Box<Expr>>, p: PlaceModel) -> Seq<ChoiceModel>
    decreases part, 0int,
{
    match part {
        None => Seq::empty(),
        Some(e) => choices(w, *e, p),
    }
}

pub open spec fn first_choices(w: World, v: Vec<Expr>, n: nat, p: PlaceModel) -> Seq<ChoiceModel>
    decreases v, n,
{
    if n == 0 || n > v@.len() {
        Seq::empty()
    } else {
        first_choices(w, v, (n - 1) as nat, p) + choices(w, v@[n - 1], p)
    }
}

/// The `if`s inside an expression that choose between linear values, each after those inside it.
pub open spec fn choices(w: World, e: Expr, p: PlaceModel) -> Seq<ChoiceModel>
    decreases e, 0int,
{
    match e.kind {
        ExprKind::Paren { inner } => part_choices(w, inner, p),
        ExprKind::AutoRestrict { expr } => part_choices(w, expr, p),
        ExprKind::Restrict { domain, expr } => part_choices(w, expr, restricted(w.system, e, p)),
        ExprKind::Dependence { function, expr } => part_choices(
            w,
            expr,
            depending(w.system, e, p),
        ),
        ExprKind::Case { branches } => first_choices(w, branches, branches@.len(), p),
        ExprKind::If { cond, then_branch, else_branch } => part_choices(w, cond, p) + part_choices(
            w,
            then_branch,
            p,
        ) + part_choices(w, else_branch, p) + if part_linear(w, then_branch) || part_linear(
            w,
            else_branch,
        ) {
            seq![
                ChoiceModel {
                    at: e.span,
                    first: part_accesses(w.system, then_branch, p),
                    second: part_accesses(w.system, else_branch, p),
                },
            ]
        } else {
            Seq::empty()
        },
        ExprKind::Unary { operator, operand } => part_choices(w, operand, p),
        ExprKind::Binary { operator, lhs, rhs } => part_choices(w, lhs, p) + part_choices(
            w,
            rhs,
            p,
        ),
        ExprKind::MultiArg { operator, args } => first_choices(w, args, args@.len(), p),
        _ => Seq::empty(),
    }
}

/// Where an expression stands.
pub struct Place {
    pub names: Vec<String>,
    pub steps: Vec<Step>,
    pub called: bool,
}

impl View for Place {
    type V = PlaceModel;

    open spec fn view(&self) -> PlaceModel {
        PlaceModel {
            names: views(self.names@),
            steps: step_models(self.steps@),
            called: self.called,
        }
    }
}

fn copy_steps(v: &Vec<Step>) -> (r: Vec<Step>)
    ensures
        step_models(r@) == step_models(v@),
{
    let ghost all = step_models(v@);
    let mut out: Vec<Step> = Vec::new();
    let mut i: usize = 0;
    proof {
        assert(step_models(out@) =~= all.take(0));
    }
    while i < v.len()
        invariant
            i <= v@.len(),
            all == step_models(v@),
            step_models(out@) == all.take(i as int),
        decreases v@.len() - i,
    {
        let ghost sofar = step_models(out@);
        out.push(Step { node: v[i].node, function: v[i].function.clone() });
        proof {
            assert(step_models(out@) =~= sofar.push(all[i as int]));
            assert(all.take(i + 1) =~= all.take(i as int).push(all[i as int]));
        }
        i += 1;
    }
    proof {
        assert(all.take(all.len() as int) =~= all);
    }
    out
}

impl<'a> Uses<'a> {
    fn inside_restriction(&self, e: &Expr, p: &Place) -> (r: Place)
        requires
            self.wf(),
        ensures
            r@ == restricted(self.world().system, *e, p@),
    {
        let names = match &e.kind {
            ExprKind::Restrict { domain, expr } => self.resolver.restrict_domain(
                domain,
                e.span,
                &p.names,
            ).1,
            _ => crate::context_names::copy_all(&p.names),
        };
        Place { names, steps: copy_steps(&p.steps), called: p.called }
    }

    fn inside_dependence(&self, e: &Expr, p: &Place) -> (r: Place)
        requires
            self.wf(),
        ensures
            r@ == depending(self.world().system, *e, p@),
    {
        let mut steps = copy_steps(&p.steps);
        let ghost before = step_models(steps@);
        match &e.kind {
            ExprKind::Dependence { function, expr } => match function {
                Some(f) => {
                    let step = Step {
                        node: e.node,
                        function: self.resolver.eval_function(f, &p.names),
                    };
                    let ghost model = step@;
                    steps.push(step);
                    proof {
                        assert(step_models(steps@) =~= before.push(model));
                    }
                },
                None => {},
            },
            _ => {},
        }
        Place { names: crate::context_names::copy_all(&p.names), steps, called: p.called }
    }

    fn push_part_accesses(&self, part: &Option<Box<Expr>>, p: &Place, out: &mut Vec<Access>)
        requires
            self.wf(),
        ensures
            access_models(final(out)@) == access_models(old(out)@) + part_accesses(
                self.world().system,
                *part,
                p@,
            ),
        decreases part, 0int,
    {
        match part {
            None => {
                proof {
                    assert(access_models(out@) + Seq::<AccessModel>::empty() =~= access_models(
                        out@,
                    ));
                }
            },
            Some(e) => self.push_accesses(e, p, out),
        }
    }

    pub(crate) fn push_each_access(&self, v: &Vec<Expr>, p: &Place, out: &mut Vec<Access>)
        requires
            self.wf(),
        ensures
            access_models(final(out)@) == access_models(old(out)@) + first_accesses(
                self.world().system,
                *v,
                v@.len(),
                p@,
            ),
        decreases v, 0int,
    {
        let ghost before = access_models(out@);
        let ghost s = self.world().system;
        let mut i: usize = 0;
        proof {
            assert(before + first_accesses(s, *v, 0, p@) =~= before);
        }
        while i < v.len()
            invariant
                i <= v@.len(),
                self.wf(),
                s == self.world().system,
                access_models(out@) == before + first_accesses(s, *v, i as nat, p@),
            decreases v@.len() - i,
        {
            self.push_accesses(&v[i], p, out);
            proof {
                assert(access_models(out@) =~= before + first_accesses(
                    s,
                    *v,
                    (i + 1) as nat,
                    p@,
                ));
            }
            i += 1;
        }
    }

    /// Appends the reads of linear variables that an expression makes.
    #[verifier::rlimit(50)]
    pub fn push_accesses(&self, e: &Expr, p: &Place, out: &mut Vec<Access>)
        requires
            self.wf(),
        ensures
            access_models(final(out)@) == access_models(old(out)@) + accesses(
                self.world().system,
                *e,
                p@,
            ),
        decreases e, 0int,
    {
        let ghost before = access_models(out@);
        match &e.kind {
            ExprKind::Variable { name } => match name {
                Some(n) => if self.names_linear(n.as_str()) {
                    let a = Access {
                        variable: n.clone(),
                        node: e.node,
                        at: e.span,
                        steps: copy_steps(&p.steps),
                        called: p.called,
                    };
                    let ghost model = a@;
                    out.push(a);
                    proof {
                        assert(access_models(out@) =~= before.push(model));
                    }
                },
                None => {},
            },
            ExprKind::Paren { inner } => self.push_part_accesses(inner, p, out),
            ExprKind::AutoRestrict { expr } => self.push_part_accesses(expr, p, out),
            ExprKind::Restrict { domain, expr } => {
                let inner = self.inside_restriction(e, p);
                self.push_part_accesses(expr, &inner, out);
            },
            ExprKind::Dependence { function, expr } => {
                let inner = self.inside_dependence(e, p);
                self.push_part_accesses(expr, &inner, out);
            },
            ExprKind::Case { branches } => self.push_each_access(branches, p, out),
            ExprKind::If { cond, then_branch, else_branch } => {
                self.push_part_accesses(cond, p, out);
                self.push_part_accesses(then_branch, p, out);
            },
            ExprKind::Unary { operator, operand } => self.push_part_accesses(operand, p, out),
            ExprKind::Binary { operator, lhs, rhs } => {
                self.push_part_accesses(lhs, p, out);
                self.push_part_accesses(rhs, p, out);
            },
            ExprKind::MultiArg { operator, args } => self.push_each_access(args, p, out),
            _ => {},
        }
        proof {
            assert(access_models(out@) =~= before + accesses(self.world().system, *e, p@));
        }
    }

    fn push_part_choices(&self, part: &Option<Box<Expr>>, p: &Place, out: &mut Vec<Choice>)
        requires
            self.wf(),
        ensures
            choice_models(final(out)@) == choice_models(old(out)@) + part_choices(
                self.world(),
                *part,
                p@,
            ),
        decreases part, 0int,
    {
        match part {
            None => {
                proof {
                    assert(choice_models(out@) + Seq::<ChoiceModel>::empty() =~= choice_models(
                        out@,
                    ));
                }
            },
            Some(e) => self.push_choices(e, p, out),
        }
    }

    pub(crate) fn push_each_choice(&self, v: &Vec<Expr>, p: &Place, out: &mut Vec<Choice>)
        requires
            self.wf(),
        ensures
            choice_models(final(out)@) == choice_models(old(out)@) + first_choices(
                self.world(),
                *v,
                v@.len(),
                p@,
            ),
        decreases v, 0int,
    {
        let ghost before = choice_models(out@);
        let mut i: usize = 0;
        proof {
            assert(before + first_choices(self.world(), *v, 0, p@) =~= before);
        }
        while i < v.len()
            invariant
                i <= v@.len(),
                self.wf(),
                choice_models(out@) == before + first_choices(self.world(), *v, i as nat, p@),
            decreases v@.len() - i,
        {
            self.push_choices(&v[i], p, out);
            proof {
                assert(choice_models(out@) =~= before + first_choices(
                    self.world(),
                    *v,
                    (i + 1) as nat,
                    p@,
                ));
            }
            i += 1;
        }
    }

    fn make_choice(
        &self,
        at: Span,
        first: &Option<Box<Expr>>,
        second: &Option<Box<Expr>>,
        p: &Place,
    ) -> (r: Choice)
        requires
            self.wf(),
        ensures
            r@ == (ChoiceModel {
                at,
                first: part_accesses(self.world().system, *first, p@),
                second: part_accesses(self.world().system, *second, p@),
            }),
    {
        let mut a: Vec<Access> = Vec::new();
        let mut b: Vec<Access> = Vec::new();
        proof {
            assert(access_models(a@) =~= Seq::<AccessModel>::empty());
            assert(access_models(b@) =~= Seq::<AccessModel>::empty());
        }
        self.push_part_accesses(first, p, &mut a);
        self.push_part_accesses(second, p, &mut b);
        proof {
            assert(access_models(a@) =~= part_accesses(self.world().system, *first, p@));
            assert(access_models(b@) =~= part_accesses(self.world().system, *second, p@));
        }
        Choice { at, first: a, second: b }
    }

    /// Appends the `if`s inside an expression that choose between linear values.
    #[verifier::rlimit(50)]
    pub fn push_choices(&self, e: &Expr, p: &Place, out: &mut Vec<Choice>)
        requires
            self.wf(),
        ensures
            choice_models(final(out)@) == choice_models(old(out)@) + choices(self.world(), *e, p@),
        decreases e, 0int,
    {
        let ghost before = choice_models(out@);
        match &e.kind {
            ExprKind::Paren { inner } => self.push_part_choices(inner, p, out),
            ExprKind::AutoRestrict { expr } => self.push_part_choices(expr, p, out),
            ExprKind::Restrict { domain, expr } => {
                let inner = self.inside_restriction(e, p);
                self.push_part_choices(expr, &inner, out);
            },
            ExprKind::Dependence { function, expr } => {
                let inner = self.inside_dependence(e, p);
                self.push_part_choices(expr, &inner, out);
            },
            ExprKind::Case { branches } => self.push_each_choice(branches, p, out),
            ExprKind::If { cond, then_branch, else_branch } => {
                self.push_part_choices(cond, p, out);
                self.push_part_choices(then_branch, p, out);
                self.push_part_choices(else_branch, p, out);
                if self.part_is_linear(then_branch) || self.part_is_linear(else_branch) {
                    let ghost sofar = choice_models(out@);
                    let c = self.make_choice(e.span, then_branch, else_branch, p);
                    let ghost model = c@;
                    out.push(c);
                    proof {
                        assert(choice_models(out@) =~= sofar.push(model));
                    }
                }
            },
            ExprKind::Unary { operator, operand } => self.push_part_choices(operand, p, out),
            ExprKind::Binary { operator, lhs, rhs } => {
                self.push_part_choices(lhs, p, out);
                self.push_part_choices(rhs, p, out);
            },
            ExprKind::MultiArg { operator, args } => self.push_each_choice(args, p, out),
            _ => {},
        }
        proof {
            assert(choice_models(out@) =~= before + choices(self.world(), *e, p@));
        }
    }
}

} // verus!
