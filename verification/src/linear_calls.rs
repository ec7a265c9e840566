//! Linear values across equations: what a variable may be defined by, and what may be handed to a
//! call.
use crate::diagnostic::{issue, issues, report, Diagnostic, Issue, IssueKind};
use crate::linearity::{
    first_misuses, gives_linear, linear_value, misuses, refused_args, Uses, World,
};
use crate::multiplicity::Multiplicity;
use crate::operation::{
    operation_names_are_distinct, registered_operation, OperationSignature, Port,
    RegisteredOperation,
};
use crate::resolve::{entries_of, entry_models, entry_place, group_type, section_decls, EntryModel};
use crate::syntax::{
    Equation, Expr, ExprKind, Span, StandardEquation, System, SystemBody, UseEquation,
};
use crate::text::{join, joined, views};
use crate::ty::ElementType;
use crate::uniqueness::collect_variable_names;
use crate::walk::{subtree, variable_names};
use vstd::prelude::*;

verus! {

/// The operation that goes by a name.
pub open spec fn operation_named(name: Seq<char>) -> Option<RegisteredOperation> {
    if exists|op: RegisteredOperation| #[trigger] op.spelling() == name {
        Some(choose|op: RegisteredOperation| #[trigger] op.spelling() == name)
    } else {
        None
    }
}

pub(crate) fn find_operation(name: &str) -> (r: Option<OperationSignature>)
    ensures
        match r {
            Some(sig) => operation_named(name@) == Some(sig.operation) && sig.is_signature_of(
                sig.operation,
            ),
            None => operation_named(name@) is None,
        },
{
    match registered_operation(name) {
        Some(sig) => {
            proof {
                assert(sig.operation.spelling() == name@);
                let op = choose|op: RegisteredOperation| #[trigger] op.spelling() == name@;
                operation_names_are_distinct(op, sig.operation);
            }
            Some(sig)
        },
        None => None,
    }
}

/// A qubit variable that is not linear.
pub open spec fn qubit_issue(s: System, e: EntryModel) -> Seq<Issue> {
    let decls = section_decls(s, e.section);
    if group_type(decls, e.index) == ElementType::Qubit && e.multiplicity
        == Multiplicity::Unrestricted {
        seq![issue(IssueKind::QubitMustBeLinear, seq![e.name], decls[e.index].span.pair())]
    } else {
        Seq::empty()
    }
}

/// The qubit variables among the first `n` that are not linear.
pub open spec fn qubit_issues(s: System, n: nat) -> Seq<Issue>
    decreases n,
{
    if n == 0 || n > entries_of(s).len() {
        Seq::empty()
    } else {
        qubit_issues(s, (n - 1) as nat) + qubit_issue(s, entries_of(s)[n - 1])
    }
}

pub open spec fn part_type(s: System, part: Option<Box<Expr>>) -> ElementType
    decreases part, 0int,
{
    match part {
        None => ElementType::Unspecified,
        Some(e) => expr_type(s, *e),
    }
}

/// The element type of a variable, or of a read of one.
pub open spec fn expr_type(s: System, e: Expr) -> ElementType
    decreases e, 0int,
{
    match e.kind {
        ExprKind::Variable { name } => match name {
            Some(n) => match entry_place(entries_of(s), n@) {
                Some(i) => group_type(
                    section_decls(s, entries_of(s)[i].section),
                    entries_of(s)[i].index,
                ),
                None => ElementType::Unspecified,
            },
            None => ElementType::Unspecified,
        },
        ExprKind::Paren { inner } => part_type(s, inner),
        ExprKind::Restrict { domain, expr } => part_type(s, expr),
        ExprKind::AutoRestrict { expr } => part_type(s, expr),
        ExprKind::Dependence { function, expr } => part_type(s, expr),
        _ => ElementType::Unspecified,
    }
}

/// The ones among the first `n` values of a call whose element type is not that of their port.
pub open spec fn port_issues(
    s: System,
    operation: Seq<char>,
    values: Seq<Expr>,
    ports: Seq<Port>,
    n: nat,
) -> Seq<Issue>
    decreases n,
{
    if n == 0 || n > values.len() {
        Seq::empty()
    } else {
        port_issues(s, operation, values, ports, (n - 1) as nat) + if expr_type(s, values[n - 1])
            != ports[n - 1].element_type {
            seq![
                issue(
                    IssueKind::OperationPortTypeMismatch,
                    seq![operation],
                    values[n - 1].span.pair(),
                ),
            ]
        } else {
            Seq::empty()
        }
    }
}

/// The variable that an expression mentions first.
pub open spec fn first_name(e: Expr) -> Seq<char> {
    let names = variable_names(subtree(e));
    if names.len() == 0 {
        Seq::empty()
    } else {
        names[0]
    }
}

pub open spec fn widened(target: Seq<char>, at: Span) -> Issue {
    issue(IssueKind::LinearValueWidened, seq![target], at.pair())
}

/// The ones among the first `n` targets of a call that are not linear though the result is.
pub open spec fn widened_outputs(w: World, name: Seq<char>, outputs: Seq<Expr>, n: nat) -> Seq<Issue>
    decreases n,
{
    if n == 0 || n > outputs.len() {
        Seq::empty()
    } else {
        widened_outputs(w, name, outputs, (n - 1) as nat) + if gives_linear(w, name, n - 1)
            && !linear_value(w, outputs[n - 1]) {
            seq![widened(first_name(outputs[n - 1]), outputs[n - 1].span)]
        } else {
            Seq::empty()
        }
    }
}

/// What a use equation calls.
pub open spec fn callee_name(u: UseEquation) -> Option<Seq<char>> {
    match u.callee {
        Some(segments) => Some(joined(views(segments@), "."@)),
        None => None,
    }
}

/// The call has as many operands and results as the operation.
pub open spec fn arity_fits(u: UseEquation, op: RegisteredOperation) -> bool {
    u.inputs@.len() == op.input_ports().len() && u.outputs@.len() == op.output_ports().len()
}

/// What is wrong with a call before any two points are compared.
pub open spec fn call_issues(w: World, u: UseEquation) -> Seq<Issue> {
    (match callee_name(u) {
        None => Seq::empty(),
        Some(name) => match operation_named(name) {
            Some(op) => if arity_fits(u, op) {
                port_issues(w.system, name, u.inputs@, op.input_ports(), u.inputs@.len())
                    + port_issues(w.system, name, u.outputs@, op.output_ports(), u.outputs@.len())
            } else {
                seq![issue(IssueKind::OperationArityMismatch, seq![name], u.span.pair())]
            },
            None => refused_args(w, name, u.inputs@, u.inputs@.len()) + widened_outputs(
                w,
                name,
                u.outputs@,
                u.outputs@.len(),
            ),
        },
    }) + first_misuses(w, u.inputs, u.inputs@.len())
}

/// What is wrong with the definition of a variable before any two points are compared.
pub open spec fn definition_issues(w: World, q: StandardEquation) -> Seq<Issue> {
    match q.expr {
        None => Seq::empty(),
        Some(x) => (match q.variable {
            Some(n) => if linear_value(w, x) && !crate::linearity::is_linear(w.system, n.text@) {
                seq![widened(n.text@, n.span)]
            } else {
                Seq::empty()
            },
            None => Seq::empty(),
        }) + misuses(w, x),
    }
}

pub open spec fn equation_issues(w: World, eq: Equation) -> Seq<Issue> {
    match eq {
        Equation::Standard(q) => definition_issues(w, q),
        Equation::Use(u) => call_issues(w, u),
    }
}

/// What is wrong with the first `n` equations.
pub open spec fn equations_issues(w: World, all: Seq<Equation>, n: nat) -> Seq<Issue>
    decreases n,
{
    if n == 0 || n > all.len() {
        Seq::empty()
    } else {
        equations_issues(w, all, (n - 1) as nat) + equation_issues(w, all[n - 1])
    }
}

/// The equations of the first `n` bodies.
pub open spec fn equations_of(bodies: Seq<SystemBody>, n: nat) -> Seq<Equation>
    decreases n,
{
    if n == 0 || n > bodies.len() {
        Seq::empty()
    } else {
        equations_of(bodies, (n - 1) as nat) + bodies[n - 1].equations@
    }
}

pub open spec fn all_equations(s: System) -> Seq<Equation> {
    equations_of(s.bodies@, s.bodies@.len())
}

/// What a list of references refers to.
pub open spec fn referred(v: Seq<&Equation>) -> Seq<Equation> {
    Seq::new(v.len(), |i: int| *v[i])
}

/// The equations of every body of a system.
pub fn find_equations<'a>(system: &'a System) -> (r: Vec<&'a Equation>)
    ensures
        referred(r@) == all_equations(*system),
{
    let mut out: Vec<&'a Equation> = Vec::new();
    let mut b: usize = 0;
    proof {
        assert(referred(out@) =~= Seq::<Equation>::empty());
    }
    while b < system.bodies.len()
        invariant
            b <= system.bodies@.len(),
            referred(out@) == equations_of(system.bodies@, b as nat),
        decreases system.bodies@.len() - b,
    {
        let equations = &system.bodies[b].equations;
        let ghost before = referred(out@);
        let mut i: usize = 0;
        proof {
            assert(before + equations@.take(0) =~= before);
        }
        while i < equations.len()
            invariant
                i <= equations@.len(),
                referred(out@) == before + equations@.take(i as int),
            decreases equations@.len() - i,
        {
            let ghost sofar = referred(out@);
            out.push(&equations[i]);
            proof {
                assert(referred(out@) =~= sofar.push(equations@[i as int]));
                assert(referred(out@) =~= before + equations@.take(i + 1));
            }
            i += 1;
        }
        proof {
            assert(equations@.take(equations@.len() as int) =~= equations@);
        }
        b += 1;
    }
    out
}

impl<'a> Uses<'a> {
    /// Reports the qubit variables that are not linear.
    pub fn report_qubits(&self, out: &mut Vec<Diagnostic>)
        requires
            self.wf(),
        ensures
            issues(final(out)@) == issues(old(out)@) + qubit_issues(
                self.world().system,
                entries_of(self.world().system).len(),
            ),
    {
        let r = self.resolver;
        let ghost s = self.world().system;
        let ghost before = issues(out@);
        let mut i: usize = 0;
        proof {
            assert(entry_models(r.entries@).len() == r.entries@.len());
            assert(before + qubit_issues(s, 0) =~= before);
        }
        while i < r.entries.len()
            invariant
                i <= r.entries@.len(),
                r == self.resolver,
                self.wf(),
                s == self.world().system,
                entry_models(r.entries@) == entries_of(s),
                r.entries@.len() == entries_of(s).len(),
                issues(out@) == before + qubit_issues(s, i as nat),
            decreases r.entries@.len() - i,
        {
            proof {
                assert(entry_models(r.entries@)[i as int] == r.entries@[i as int]@);
            }
            if r.declared_type(i) == ElementType::Qubit && r.entries[i].multiplicity
                == Multiplicity::Unrestricted {
                let d = r.declaration(i);
                report(
                    out,
                    Diagnostic::QubitMustBeLinear {
                        variable: r.entries[i].name.clone(),
                        start: d.span.start,
                        end: d.span.end,
                    },
                );
            }
            proof {
                assert(issues(out@) =~= before + qubit_issues(s, (i + 1) as nat));
            }
            i += 1;
        }
    }

    fn find_part_type(&self, part: &Option<Box<Expr>>) -> (r: ElementType)
        requires
            self.wf(),
        ensures
            r == part_type(self.world().system, *part),
        decreases part, 0int,
    {
        match part {
            None => ElementType::Unspecified,
            Some(e) => self.find_type(e),
        }
    }

    fn find_type(&self, e: &Expr) -> (r: ElementType)
        requires
            self.wf(),
        ensures
            r == expr_type(self.world().system, *e),
        decreases e, 0int,
    {
        match &e.kind {
            ExprKind::Variable { name } => match name {
                Some(n) => match self.resolver.variable_type(n.as_str()) {
                    Some(t) => t,
                    None => ElementType::Unspecified,
                },
                None => ElementType::Unspecified,
            },
            ExprKind::Paren { inner } => self.find_part_type(inner),
            ExprKind::Restrict { domain, expr } => self.find_part_type(expr),
            ExprKind::AutoRestrict { expr } => self.find_part_type(expr),
            ExprKind::Dependence { function, expr } => self.find_part_type(expr),
            _ => ElementType::Unspecified,
        }
    }

    fn report_ports(
        &self,
        operation: &str,
        values: &Vec<Expr>,
        ports: &Vec<Port>,
        out: &mut Vec<Diagnostic>,
    )
        requires
            self.wf(),
            values@.len() == ports@.len(),
        ensures
            issues(final(out)@) == issues(old(out)@) + port_issues(
                self.world().system,
                operation@,
                values@,
                ports@,
                values@.len(),
            ),
    {
        let ghost s = self.world().system;
        let ghost before = issues(out@);
        let mut i: usize = 0;
        proof {
            assert(before + port_issues(s, operation@, values@, ports@, 0) =~= before);
        }
        while i < values.len()
            invariant
                i <= values@.len(),
                values@.len() == ports@.len(),
                self.wf(),
                s == self.world().system,
                issues(out@) == before + port_issues(s, operation@, values@, ports@, i as nat),
            decreases values@.len() - i,
        {
            if self.find_type(&values[i]) != ports[i].element_type {
                report(
                    out,
                    Diagnostic::OperationPortTypeMismatch {
                        operation: operation.to_owned(),
                        start: values[i].span.start,
                        end: values[i].span.end,
                    },
                );
            }
            proof {
                assert(issues(out@) =~= before + port_issues(
                    s,
                    operation@,
                    values@,
                    ports@,
                    (i + 1) as nat,
                ));
            }
            i += 1;
        }
    }

    fn report_widened(&self, name: &str, outputs: &Vec<Expr>, out: &mut Vec<Diagnostic>)
        requires
            self.wf(),
        ensures
            issues(final(out)@) == issues(old(out)@) + widened_outputs(
                self.world(),
                name@,
                outputs@,
                outputs@.len(),
            ),
    {
        let ghost w = self.world();
        let ghost before = issues(out@);
        let mut i: usize = 0;
        proof {
            assert(before + widened_outputs(w, name@, outputs@, 0) =~= before);
        }
        while i < outputs.len()
            invariant
                i <= outputs@.len(),
                self.wf(),
                w == self.world(),
                issues(out@) == before + widened_outputs(w, name@, outputs@, i as nat),
            decreases outputs@.len() - i,
        {
            if self.port_gives_linear(name, i) && !self.is_linear_value(&outputs[i]) {
                let target = find_first_name(&outputs[i]);
                report(
                    out,
                    Diagnostic::LinearValueWidened {
                        target,
                        start: outputs[i].span.start,
                        end: outputs[i].span.end,
                    },
                );
            }
            proof {
                assert(issues(out@) =~= before + widened_outputs(
                    w,
                    name@,
                    outputs@,
                    (i + 1) as nat,
                ));
            }
            i += 1;
        }
    }

    fn report_call(&self, u: &UseEquation, out: &mut Vec<Diagnostic>)
        requires
            self.wf(),
        ensures
            issues(final(out)@) == issues(old(out)@) + call_issues(self.world(), *u),
    {
        let ghost before = issues(out@);
        match &u.callee {
            None => {},
            Some(segments) => {
                let name = join(segments, ".");
                match find_operation(name.as_str()) {
                    Some(sig) => if u.inputs.len() == sig.inputs.len() && u.outputs.len()
                        == sig.outputs.len() {
                        self.report_ports(name.as_str(), &u.inputs, &sig.inputs, out);
                        self.report_ports(name.as_str(), &u.outputs, &sig.outputs, out);
                    } else {
                        report(
                            out,
                            Diagnostic::OperationArityMismatch {
                                operation: name,
                                start: u.span.start,
                                end: u.span.end,
                            },
                        );
                    },
                    None => {
                        self.refuse_args(name.as_str(), &u.inputs, out);
                        self.report_widened(name.as_str(), &u.outputs, out);
                    },
                }
            },
        }
        self.report_each(&u.inputs, out);
        proof {
            assert(issues(out@) =~= before + call_issues(self.world(), *u));
        }
    }

    fn report_definition(&self, q: &StandardEquation, out: &mut Vec<Diagnostic>)
        requires
            self.wf(),
        ensures
            issues(final(out)@) == issues(old(out)@) + definition_issues(self.world(), *q),
    {
        let ghost before = issues(out@);
        match &q.expr {
            None => {},
            Some(x) => {
                match &q.variable {
                    Some(n) => if self.is_linear_value(x) && !self.names_linear(n.text.as_str()) {
                        report(
                            out,
                            Diagnostic::LinearValueWidened {
                                target: n.text.clone(),
                                start: n.span.start,
                                end: n.span.end,
                            },
                        );
                    },
                    None => {},
                }
                self.report_misuses(x, out);
            },
        }
        proof {
            assert(issues(out@) =~= before + definition_issues(self.world(), *q));
        }
    }

    /// Reports what is wrong with equations before any two points are compared.
    pub fn report_equations(&self, all: &Vec<&Equation>, out: &mut Vec<Diagnostic>)
        requires
            self.wf(),
        ensures
            issues(final(out)@) == issues(old(out)@) + equations_issues(
                self.world(),
                referred(all@),
                all@.len(),
            ),
    {
        let ghost w = self.world();
        let ghost models = referred(all@);
        let ghost before = issues(out@);
        let mut i: usize = 0;
        proof {
            assert(before + equations_issues(w, models, 0) =~= before);
        }
        while i < all.len()
            invariant
                i <= all@.len(),
                self.wf(),
                w == self.world(),
                models == referred(all@),
                issues(out@) == before + equations_issues(w, models, i as nat),
            decreases all@.len() - i,
        {
            match all[i] {
                Equation::Standard(q) => self.report_definition(q, out),
                Equation::Use(u) => self.report_call(u, out),
            }
            proof {
                assert(models[i as int] == *all@[i as int]);
                assert(issues(out@) =~= before + equations_issues(w, models, (i + 1) as nat));
            }
            i += 1;
        }
    }
}

fn find_first_name(e: &Expr) -> (r: String)
    ensures
        r@ == first_name(*e),
{
    let mut names: Vec<String> = Vec::new();
    proof {
        assert(views(names@) =~= Seq::<Seq<char>>::empty());
    }
    collect_variable_names(e, &mut names);
    proof {
        assert(views(names@) =~= variable_names(subtree(*e)));
        assert(views(names@).len() == names@.len());
        reveal_strlit("");
        assert(""@ =~= Seq::<char>::empty());
    }
    if names.len() == 0 {
        "".to_owned()
    } else {
        names[0].clone()
    }
}

} // verus!
