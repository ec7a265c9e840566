//! Linear values: every point of a linear variable is to be used exactly once.
//!
//! Which expressions have a linear value, and what such a value cannot be used for, is decided here
//! by the expressions alone.
use crate::diagnostic::{issue, issues, report, Diagnostic, Issue, IssueKind};
use crate::multiplicity::Multiplicity;
use crate::operation::{registered_operation, RegisteredOperation};
use crate::program::{scoped, signature_views, PortModel, PortSignature};
use crate::resolve::{entries_of, entry_place, Resolver};
use crate::syntax::{Expr, ExprKind, Span, System};
use crate::text::{cat3, chars_of, str_eq, views};
use crate::uniqueness::collect_variable_names;
use crate::walk::{subtree, variable_names};
use vstd::prelude::*;

verus! {

/// A system, and what it can call from where it stands.
pub struct World {
    pub system: System,
    pub signatures: Seq<(Seq<char>, PortModel)>,
    pub scope: Seq<char>,
}

pub open spec fn is_linear(s: System, name: Seq<char>) -> bool {
    match entry_place(entries_of(s), name) {
        Some(i) => entries_of(s)[i].multiplicity == Multiplicity::Linear,
        None => false,
    }
}

/// The last signature under a name.
pub open spec fn signature_of(signatures: Seq<(Seq<char>, PortModel)>, name: Seq<char>) -> Option<
    PortModel,
>
    decreases signatures.len(),
{
    if signatures.len() == 0 {
        None
    } else if signatures.last().0 == name {
        Some(signatures.last().1)
    } else {
        signature_of(signatures.drop_last(), name)
    }
}

/// What a name stands for in a scope: what the scope itself holds comes first.
pub open spec fn ports_of(w: World, name: Seq<char>) -> Option<PortModel> {
    match signature_of(w.signatures, scoped(w.scope, name)) {
        Some(p) => Some(p),
        None => signature_of(w.signatures, name),
    }
}

/// The argument at place `i` of a call has to be linear.
pub open spec fn takes_linear(w: World, name: Seq<char>, i: int) -> bool {
    match ports_of(w, name) {
        Some(p) => 0 <= i < p.inputs.len() && p.inputs[i] == Multiplicity::Linear,
        None => false,
    }
}

/// The result at place `i` of a call is linear.
pub open spec fn gives_linear(w: World, name: Seq<char>, i: int) -> bool {
    match ports_of(w, name) {
        Some(p) => 0 <= i < p.outputs.len() && p.outputs[i] == Multiplicity::Linear,
        None => false,
    }
}

pub open spec fn is_operation(name: Seq<char>) -> bool {
    exists|op: RegisteredOperation| #[trigger] op.spelling() == name
}

pub open spec fn part_linear(w: World, part: Option<Box<Expr>>) -> bool
    decreases part, 0int,
{
    match part {
        None => false,
        Some(e) => linear_value(w, *e),
    }
}

/// Some of the first `n` expressions are linear.
pub open spec fn first_linear(w: World, v: Vec<Expr>, n: nat) -> bool
    decreases v, n,
{
    if n == 0 || n > v@.len() {
        false
    } else {
        first_linear(w, v, (n - 1) as nat) || linear_value(w, v@[n - 1])
    }
}

/// The value of the expression is linear: it is handed on from a linear variable, or from a call
/// with a linear result.
pub open spec fn linear_value(w: World, e: Expr) -> bool
    decreases e, 0int,
{
    match e.kind {
        ExprKind::Variable { name } => match name {
            Some(n) => is_linear(w.system, n@),
            None => false,
        },
        ExprKind::Paren { inner } => part_linear(w, inner),
        ExprKind::Restrict { domain, expr } => part_linear(w, expr),
        ExprKind::AutoRestrict { expr } => part_linear(w, expr),
        ExprKind::Dependence { function, expr } => part_linear(w, expr),
        ExprKind::Case { branches } => first_linear(w, branches, branches@.len()),
        ExprKind::If { cond, then_branch, else_branch } => part_linear(w, then_branch)
            || part_linear(w, else_branch),
        ExprKind::MultiArg { operator, args } => gives_linear(w, operator@, 0),
        _ => false,
    }
}

/// Some variable inside the part is linear.
pub open spec fn mentions_linear(s: System, part: Option<Box<Expr>>) -> bool {
    match part {
        None => false,
        Some(e) => some_linear(s, variable_names(subtree(*e))),
    }
}

pub open spec fn some_linear(s: System, names: Seq<Seq<char>>) -> bool {
    exists|i: int| 0 <= i < names.len() && is_linear(s, #[trigger] names[i])
}

pub open spec fn misplaced(operator: Seq<char>, at: Span) -> Issue {
    issue(IssueKind::LinearArgumentToUnrestrictedPort, seq![operator], at.pair())
}

/// A linear operand of an operator, which takes none.
pub open spec fn refused_part(w: World, operator: Seq<char>, part: Option<Box<Expr>>) -> Seq<Issue> {
    match part {
        None => Seq::empty(),
        Some(e) => if linear_value(w, *e) {
            seq![misplaced(operator, e.span)]
        } else {
            Seq::empty()
        },
    }
}

/// The linear ones among the first `n` arguments whose place in the call takes none.
pub open spec fn refused_args(w: World, name: Seq<char>, args: Seq<Expr>, n: nat) -> Seq<Issue>
    decreases n,
{
    if n == 0 || n > args.len() {
        Seq::empty()
    } else {
        refused_args(w, name, args, (n - 1) as nat) + if linear_value(w, args[n - 1])
            && !takes_linear(w, name, n - 1) {
            seq![misplaced(name, args[n - 1].span)]
        } else {
            Seq::empty()
        }
    }
}

pub open spec fn unsupported_here(construct: Seq<char>, at: Span) -> Issue {
    issue(IssueKind::LinearityUnsupportedHere, seq![construct], at.pair())
}

pub open spec fn part_misuses(w: World, part: Option<Box<Expr>>) -> Seq<Issue>
    decreases part, 0int,
{
    match part {
        None => Seq::empty(),
        Some(e) => misuses(w, *e),
    }
}

pub open spec fn first_misuses(w: World, v: Vec<Expr>, n: nat) -> Seq<Issue>
    decreases v, n,
{
    if n == 0 || n > v@.len() {
        Seq::empty()
    } else {
        first_misuses(w, v, (n - 1) as nat) + misuses(w, v@[n - 1])
    }
}

/// What of an expression linear values cannot be used for.
pub open spec fn misuses(w: World, e: Expr) -> Seq<Issue>
    decreases e, 0int,
{
    match e.kind {
        ExprKind::If { cond, then_branch, else_branch } => refused_part(w, "if"@, cond)
            + part_misuses(w, cond) + part_misuses(w, then_branch) + part_misuses(w, else_branch),
        ExprKind::Restrict { domain, expr } => part_misuses(w, expr),
        ExprKind::AutoRestrict { expr } => part_misuses(w, expr),
        ExprKind::Paren { inner } => part_misuses(w, inner),
        ExprKind::Dependence { function, expr } => part_misuses(w, expr),
        ExprKind::Case { branches } => first_misuses(w, branches, branches@.len()),
        ExprKind::Unary { operator, operand } => refused_part(w, operator@, operand)
            + part_misuses(w, operand),
        ExprKind::Binary { operator, lhs, rhs } => refused_part(w, operator@, lhs) + refused_part(
            w,
            operator@,
            rhs,
        ) + part_misuses(w, lhs) + part_misuses(w, rhs),
        ExprKind::MultiArg { operator, args } => (if is_operation(operator@) {
            seq![issue(IssueKind::InvalidOperationContext, seq![operator@], e.span.pair())]
        } else {
            refused_args(w, operator@, args@, args@.len())
        }) + first_misuses(w, args, args@.len()),
        ExprKind::Reduce { projection, body } => if mentions_linear(w.system, body) {
            seq![unsupported_here("reduce"@, e.span)]
        } else {
            part_misuses(w, body)
        },
        ExprKind::Select { relation, expr } => if mentions_linear(w.system, expr) {
            seq![unsupported_here("select"@, e.span)]
        } else {
            part_misuses(w, expr)
        },
        ExprKind::Convolution { kernel_domain, kernel, data } => if mentions_linear(
            w.system,
            kernel,
        ) || mentions_linear(w.system, data) {
            seq![unsupported_here("convolution"@, e.span)]
        } else {
            part_misuses(w, kernel) + part_misuses(w, data)
        },
        _ => Seq::empty(),
    }
}

/// What the checks of linear values know.
pub struct Uses<'a> {
    pub resolver: &'a Resolver<'a>,
    pub signatures: &'a Vec<(String, PortSignature)>,
    pub scope: &'a str,
}

fn find_signature(signatures: &Vec<(String, PortSignature)>, name: &str) -> (r: Option<usize>)
    ensures
        match r {
            Some(i) => i < signatures@.len() && signature_of(signature_views(signatures@), name@)
                == Some(signatures@[i as int].1@),
            None => signature_of(signature_views(signatures@), name@) is None,
        },
{
    let ghost all = signature_views(signatures@);
    let mut i: usize = signatures.len();
    proof {
        assert(all.take(all.len() as int) =~= all);
    }
    while i > 0
        invariant
            i <= signatures@.len(),
            all == signature_views(signatures@),
            signature_of(all, name@) == signature_of(all.take(i as int), name@),
        decreases i,
    {
        proof {
            assert(all.take(i as int).last() == all[i - 1]);
            assert(all.take(i as int).drop_last() =~= all.take(i - 1));
        }
        i -= 1;
        if str_eq(signatures[i].0.as_str(), name) {
            return Some(i);
        }
    }
    None
}

impl<'a> Uses<'a> {
    pub open spec fn world(&self) -> World {
        World {
            system: *self.resolver.system,
            signatures: signature_views(self.signatures@),
            scope: self.scope@,
        }
    }

    pub open spec fn wf(&self) -> bool {
        self.resolver.wf()
    }

    fn find_ports(&self, name: &str) -> (r: Option<&PortSignature>)
        ensures
            match r {
                Some(p) => ports_of(self.world(), name@) == Some(p@),
                None => ports_of(self.world(), name@) is None,
            },
    {
        let v = chars_of(self.scope);
        let own = if v.len() == 0 {
            name.to_owned()
        } else {
            cat3(self.scope, ".", name)
        };
        match find_signature(self.signatures, own.as_str()) {
            Some(i) => Some(&self.signatures[i].1),
            None => match find_signature(self.signatures, name) {
                Some(i) => Some(&self.signatures[i].1),
                None => None,
            },
        }
    }

    fn port_takes_linear(&self, name: &str, i: usize) -> (r: bool)
        ensures
            r == takes_linear(self.world(), name@, i as int),
    {
        match self.find_ports(name) {
            Some(p) => i < p.inputs.len() && p.inputs[i] == Multiplicity::Linear,
            None => false,
        }
    }

    pub(crate) fn port_gives_linear(&self, name: &str, i: usize) -> (r: bool)
        ensures
            r == gives_linear(self.world(), name@, i as int),
    {
        match self.find_ports(name) {
            Some(p) => i < p.outputs.len() && p.outputs[i] == Multiplicity::Linear,
            None => false,
        }
    }

    pub(crate) fn names_linear(&self, name: &str) -> (r: bool)
        requires
            self.wf(),
        ensures
            r == is_linear(self.world().system, name@),
    {
        match self.resolver.variable_multiplicity(name) {
            Some(m) => m == Multiplicity::Linear,
            None => false,
        }
    }

    pub(crate) fn part_is_linear(&self, part: &Option<Box<Expr>>) -> (r: bool)
        requires
            self.wf(),
        ensures
            r == part_linear(self.world(), *part),
        decreases part, 0int,
    {
        match part {
            None => false,
            Some(e) => self.is_linear_value(e),
        }
    }

    fn some_is_linear(&self, v: &Vec<Expr>) -> (r: bool)
        requires
            self.wf(),
        ensures
            r == first_linear(self.world(), *v, v@.len()),
        decreases v, 0int,
    {
        let mut found = false;
        let mut i: usize = 0;
        while i < v.len()
            invariant
                i <= v@.len(),
                self.wf(),
                found == first_linear(self.world(), *v, i as nat),
            decreases v@.len() - i,
        {
            if self.is_linear_value(&v[i]) {
                found = true;
            }
            i += 1;
        }
        found
    }

    pub fn is_linear_value(&self, e: &Expr) -> (r: bool)
        requires
            self.wf(),
        ensures
            r == linear_value(self.world(), *e),
        decreases e, 0int,
    {
        match &e.kind {
            ExprKind::Variable { name } => match name {
                Some(n) => self.names_linear(n.as_str()),
                None => false,
            },
            ExprKind::Paren { inner } => self.part_is_linear(inner),
            ExprKind::Restrict { domain, expr } => self.part_is_linear(expr),
            ExprKind::AutoRestrict { expr } => self.part_is_linear(expr),
            ExprKind::Dependence { function, expr } => self.part_is_linear(expr),
            ExprKind::Case { branches } => self.some_is_linear(branches),
            ExprKind::If { cond, then_branch, else_branch } => self.part_is_linear(then_branch)
                || self.part_is_linear(else_branch),
            ExprKind::MultiArg { operator, args } => self.port_gives_linear(operator.as_str(), 0),
            _ => false,
        }
    }

    fn mentions(&self, part: &Option<Box<Expr>>) -> (r: bool)
        requires
            self.wf(),
        ensures
            r == mentions_linear(self.world().system, *part),
    {
        let e = match part {
            None => return false,
            Some(e) => e,
        };
        let mut names: Vec<String> = Vec::new();
        proof {
            assert(views(names@) =~= Seq::<Seq<char>>::empty());
        }
        collect_variable_names(e, &mut names);
        let ghost all = variable_names(subtree(**e));
        proof {
            assert(views(names@) =~= all);
        }
        let mut i: usize = 0;
        while i < names.len()
            invariant
                i <= names@.len(),
                self.wf(),
                *part == Some(*e),
                all == variable_names(subtree(**e)),
                views(names@) == all,
                forall|j: int| 0 <= j < i ==> !is_linear(self.world().system, #[trigger] all[j]),
            decreases names@.len() - i,
        {
            proof {
                assert(all[i as int] == names@[i as int]@);
            }
            if self.names_linear(names[i].as_str()) {
                return true;
            }
            i += 1;
        }
        false
    }

    fn refuse_part(&self, operator: &str, part: &Option<Box<Expr>>, out: &mut Vec<Diagnostic>)
        requires
            self.wf(),
        ensures
            issues(final(out)@) == issues(old(out)@) + refused_part(self.world(), operator@, *part),
    {
        let ghost before = issues(out@);
        match part {
            None => {},
            Some(e) => if self.is_linear_value(e) {
                report(
                    out,
                    Diagnostic::LinearArgumentToUnrestrictedPort {
                        operator: operator.to_owned(),
                        start: e.span.start,
                        end: e.span.end,
                    },
                );
            },
        }
        proof {
            assert(issues(out@) =~= before + refused_part(self.world(), operator@, *part));
        }
    }

    pub(crate) fn refuse_args(&self, name: &str, args: &Vec<Expr>, out: &mut Vec<Diagnostic>)
        requires
            self.wf(),
        ensures
            issues(final(out)@) == issues(old(out)@) + refused_args(
                self.world(),
                name@,
                args@,
                args@.len(),
            ),
    {
        let ghost before = issues(out@);
        let mut i: usize = 0;
        proof {
            assert(before + refused_args(self.world(), name@, args@, 0) =~= before);
        }
        while i < args.len()
            invariant
                i <= args@.len(),
                self.wf(),
                issues(out@) == before + refused_args(self.world(), name@, args@, i as nat),
            decreases args@.len() - i,
        {
            if self.is_linear_value(&args[i]) && !self.port_takes_linear(name, i) {
                report(
                    out,
                    Diagnostic::LinearArgumentToUnrestrictedPort {
                        operator: name.to_owned(),
                        start: args[i].span.start,
                        end: args[i].span.end,
                    },
                );
            }
            proof {
                assert(issues(out@) =~= before + refused_args(
                    self.world(),
                    name@,
                    args@,
                    (i + 1) as nat,
                ));
            }
            i += 1;
        }
    }

    fn report_part(&self, part: &Option<Box<Expr>>, out: &mut Vec<Diagnostic>)
        requires
            self.wf(),
        ensures
            issues(final(out)@) == issues(old(out)@) + part_misuses(self.world(), *part),
        decreases part, 0int,
    {
        match part {
            None => {
                proof {
                    assert(issues(out@) + Seq::<Issue>::empty() =~= issues(out@));
                }
            },
            Some(e) => self.report_misuses(e, out),
        }
    }

    pub(crate) fn report_each(&self, v: &Vec<Expr>, out: &mut Vec<Diagnostic>)
        requires
            self.wf(),
        ensures
            issues(final(out)@) == issues(old(out)@) + first_misuses(self.world(), *v, v@.len()),
        decreases v, 0int,
    {
        let ghost before = issues(out@);
        let mut i: usize = 0;
        proof {
            assert(before + first_misuses(self.world(), *v, 0) =~= before);
        }
        while i < v.len()
            invariant
                i <= v@.len(),
                self.wf(),
                issues(out@) == before + first_misuses(self.world(), *v, i as nat),
            decreases v@.len() - i,
        {
            self.report_misuses(&v[i], out);
            proof {
                assert(issues(out@) =~= before + first_misuses(self.world(), *v, (i + 1) as nat));
            }
            i += 1;
        }
    }

    fn report_unsupported(&self, construct: &str, at: Span, out: &mut Vec<Diagnostic>)
        ensures
            issues(final(out)@) == issues(old(out)@).push(unsupported_here(construct@, at)),
    {
        report(
            out,
            Diagnostic::LinearityUnsupportedHere {
                construct: construct.to_owned(),
                start: at.start,
                end: at.end,
            },
        );
    }

    /// Reports what of an expression linear values cannot be used for.
    #[verifier::rlimit(50)]
    pub fn report_misuses(&self, e: &Expr, out: &mut Vec<Diagnostic>)
        requires
            self.wf(),
        ensures
            issues(final(out)@) == issues(old(out)@) + misuses(self.world(), *e),
        decreases e, 0int,
    {
        let ghost before = issues(out@);
        match &e.kind {
            ExprKind::If { cond, then_branch, else_branch } => {
                self.refuse_part("if", cond, out);
                self.report_part(cond, out);
                self.report_part(then_branch, out);
                self.report_part(else_branch, out);
            },
            ExprKind::Restrict { domain, expr } => self.report_part(expr, out),
            ExprKind::AutoRestrict { expr } => self.report_part(expr, out),
            ExprKind::Paren { inner } => self.report_part(inner, out),
            ExprKind::Dependence { function, expr } => self.report_part(expr, out),
            ExprKind::Case { branches } => self.report_each(branches, out),
            ExprKind::Unary { operator, operand } => {
                self.refuse_part(operator.as_str(), operand, out);
                self.report_part(operand, out);
            },
            ExprKind::Binary { operator, lhs, rhs } => {
                self.refuse_part(operator.as_str(), lhs, out);
                self.refuse_part(operator.as_str(), rhs, out);
                self.report_part(lhs, out);
                self.report_part(rhs, out);
            },
            ExprKind::MultiArg { operator, args } => {
                match registered_operation(operator.as_str()) {
                    Some(sig) => {
                        proof {
                            assert(sig.operation.spelling() == operator@);
                        }
                        report(
                            out,
                            Diagnostic::InvalidOperationContext {
                                operation: operator.clone(),
                                start: e.span.start,
                                end: e.span.end,
                            },
                        );
                    },
                    None => self.refuse_args(operator.as_str(), args, out),
                }
                self.report_each(args, out);
            },
            ExprKind::Reduce { projection, body } => if self.mentions(body) {
                self.report_unsupported("reduce", e.span, out);
            } else {
                self.report_part(body, out);
            },
            ExprKind::Select { relation, expr } => if self.mentions(expr) {
                self.report_unsupported("select", e.span, out);
            } else {
                self.report_part(expr, out);
            },
            ExprKind::Convolution { kernel_domain, kernel, data } => if self.mentions(kernel)
                || self.mentions(data) {
                self.report_unsupported("convolution", e.span, out);
            } else {
                self.report_part(kernel, out);
                self.report_part(data, out);
            },
            _ => {},
        }
        proof {
            assert(issues(out@) =~= before + misuses(self.world(), *e));
        }
    }
}

} // verus!
