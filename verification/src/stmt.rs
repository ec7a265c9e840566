//! The statements of a system: what a schedule orders and a scheduled program runs.
//!
//! An ordinary variable is one statement. A variable whose single equation is a reduction is two:
//! `<name>__init` stores the neutral element and `<name>__reduce` folds in one value. A registered
//! operation call is one statement, called after its first output (after the operation where it has
//! none) and numbered in order.
use crate::error::{unsupported, CodegenError, Failure, Result};
use crate::ir::{
    all_equations_wf, contains_use, equations_of, expr_wf, find_equations, has_use, referred,
    AffineFunction, Equation, Expr, ExprKind, Operator, OperationCall, ReduceDomain, StandardEquation, System, SystemBody, Variable,
};
use crate::relation::{in_both, Region, RegionModel};
use crate::text::{cat2, cat3, dec, dec_usize, push_text, str_eq, views};
use vstd::prelude::*;

verus! {

#[allow(inconsistent_fields)]
pub enum StatementKind<'a> {
    /// One or more equations of an ordinary variable, each with the guard of its body.
    Ordinary { equations: Vec<(&'a String, &'a StandardEquation)> },
    /// Stores the neutral element of a reduction.
    ReduceInit { reduce_local: &'a String, operator: &'a Operator, body_context: Vec<String> },
    /// Folds one value into a reduction.
    ReduceStep {
        reduce_local: &'a String,
        operator: &'a Operator,
        body: &'a Expr,
        body_context: &'a Vec<String>,
        projection: &'a AffineFunction,
    },
    OperationCall(&'a OperationCall),
}

pub struct Statement<'a> {
    pub name: String,
    /// Its instances.
    pub domain: Region,
    /// The dimensionality of its domain.
    pub ndims: u32,
    pub kind: StatementKind<'a>,
}

/// What a statement computes.
#[allow(inconsistent_fields)]
pub enum KindModel {
    Ordinary { equations: Seq<(String, StandardEquation)> },
    ReduceInit { reduce_local: Seq<char>, operator: Operator, body_context: Seq<Seq<char>> },
    ReduceStep {
        reduce_local: Seq<char>,
        operator: Operator,
        body: Expr,
        body_context: Seq<Seq<char>>,
        projection: AffineFunction,
    },
    OperationCall(OperationCall),
}

pub struct StatementModel {
    pub name: Seq<char>,
    pub domain: RegionModel,
    pub ndims: u32,
    pub kind: KindModel,
}

impl<'a> View for Statement<'a> {
    type V = StatementModel;

    open spec fn view(&self) -> StatementModel {
        StatementModel {
            name: self.name@,
            domain: self.domain@,
            ndims: self.ndims,
            kind: match self.kind {
                StatementKind::Ordinary { equations } => KindModel::Ordinary {
                    equations: referred(equations@),
                },
                StatementKind::ReduceInit { reduce_local, operator, body_context } => KindModel::ReduceInit {
                    reduce_local: reduce_local@,
                    operator: *operator,
                    body_context: views(body_context@),
                },
                StatementKind::ReduceStep {
                    reduce_local,
                    operator,
                    body,
                    body_context,
                    projection,
                } => KindModel::ReduceStep {
                    reduce_local: reduce_local@,
                    operator: *operator,
                    body: *body,
                    body_context: views(body_context@),
                    projection: *projection,
                },
                StatementKind::OperationCall(call) => KindModel::OperationCall(*call),
            },
        }
    }
}

impl StatementModel {
    /// The expressions of a statement are well formed, and an ordinary one has an equation.
    pub open spec fn wf(self) -> bool {
        match self.kind {
            KindModel::Ordinary { equations } => equations.len() > 0 && forall|i: int|
                0 <= i < equations.len() ==> expr_wf((#[trigger] equations[i]).1.expr),
            KindModel::ReduceStep { body, .. } => expr_wf(body),
            _ => true,
        }
    }
}

pub open spec fn statements_model(v: Seq<Statement>) -> Seq<StatementModel> {
    Seq::new(v.len(), |i: int| v[i]@)
}

pub open spec fn all_statements_wf(v: Seq<StatementModel>) -> bool {
    forall|i: int| 0 <= i < v.len() ==> (#[trigger] v[i]).wf()
}

pub type StatementsOutcome = core::result::Result<Seq<StatementModel>, Failure>;

pub open spec fn statements_outcome(r: Result<Vec<Statement>>) -> StatementsOutcome {
    match r {
        Ok(v) => Ok(statements_model(v@)),
        Err(e) => Err(e@),
    }
}

/// The first `n` names, or none where there are fewer.
pub open spec fn ambient_hint(context: Seq<Seq<char>>, n: nat) -> Seq<Seq<char>> {
    if context.len() >= n {
        context.take(n as int)
    } else {
        Seq::empty()
    }
}

/// The steps of a reduction: where its body is defined and needed.
pub open spec fn step_domain(d: ReduceDomain) -> RegionModel {
    RegionModel::Both(
        Box::new(RegionModel::Read(d.extent@)),
        Box::new(RegionModel::Read(d.context@)),
    )
}

/// The statements of one variable.
pub open spec fn variable_statements(v: Variable, eqs: Seq<(String, StandardEquation)>) -> StatementsOutcome {
    let ordinary = Ok(
        seq![
            StatementModel {
                name: v.name@,
                domain: RegionModel::Read(v.domain.text@),
                ndims: v.domain.ndims,
                kind: KindModel::Ordinary { equations: eqs },
            },
        ],
    );
    if eqs.len() != 1 {
        ordinary
    } else {
        match *eqs[0].1.expr.kind {
            ExprKind::Reduce { is_arg_reduce, operator, body_context, body, projection, domain } => {
                if is_arg_reduce {
                    ordinary
                } else {
                    match domain {
                        None => Err(
                            Failure::Unsupported(
                                "reduce body missing a context domain — codegen must run after Normalize's context refresh"@,
                            ),
                        ),
                        Some(d) => Ok(
                            seq![
                                StatementModel {
                                    name: v.name@ + "__init"@,
                                    domain: RegionModel::Read(v.domain.text@),
                                    ndims: v.domain.ndims,
                                    kind: KindModel::ReduceInit {
                                        reduce_local: v.name@,
                                        operator,
                                        body_context: ambient_hint(
                                            views(body_context@),
                                            v.domain.ndims as nat,
                                        ),
                                    },
                                },
                                StatementModel {
                                    name: v.name@ + "__reduce"@,
                                    domain: step_domain(d),
                                    ndims: d.total,
                                    kind: KindModel::ReduceStep {
                                        reduce_local: v.name@,
                                        operator,
                                        body,
                                        body_context: views(body_context@),
                                        projection,
                                    },
                                },
                            ],
                        ),
                    }
                }
            },
            _ => ordinary,
        }
    }
}

fn first_names(context: &Vec<String>, n: u32) -> (r: Vec<String>)
    ensures
        views(r@) == ambient_hint(views(context@), n as nat),
{
    let mut out: Vec<String> = Vec::new();
    if context.len() as u64 >= n as u64 {
        let mut i: usize = 0;
        while i < n as usize
            invariant
                i <= n <= context.len(),
                views(out@) =~= views(context@).take(i as int),
            decreases n - i,
        {
            push_text(&mut out, context[i].clone());
            i += 1;
        }
    }
    proof {
        assert(views(out@) =~= ambient_hint(views(context@), n as nat));
    }
    out
}

fn push_statement<'a>(out: &mut Vec<Statement<'a>>, s: Statement<'a>)
    ensures
        statements_model(final(out)@) == statements_model(old(out)@).push(s@),
{
    out.push(s);
    proof {
        assert(statements_model(out@) =~= statements_model(old(out)@).push(s@));
    }
}

/// Appends the statements of one variable.
pub fn push_statements_for_variable<'a>(
    v: &'a Variable,
    eqs: Vec<(&'a String, &'a StandardEquation)>,
    out: &mut Vec<Statement<'a>>,
) -> (r: Result<()>)
    requires
        eqs@.len() > 0,
    ensures
        match variable_statements(*v, referred(eqs@)) {
            Ok(more) => r is Ok && statements_model(final(out)@) =~= statements_model(old(out)@) + more,
            Err(f) => r matches Err(e) && e@ == f,
        },
{
    let ghost all = referred(eqs@);
    if eqs.len() == 1 {
        proof {
            assert(all[0] == (*eqs@[0].0, *eqs@[0].1));
        }
        if let ExprKind::Reduce { is_arg_reduce, operator, body_context, body, projection, domain } = &*eqs[0].1.expr.kind {
            if !*is_arg_reduce {
                let reduced = match domain {
                    Some(d) => d,
                    None => return Err(
                        unsupported(
                            "reduce body missing a context domain — codegen must run after Normalize's context refresh",
                        ),
                    ),
                };
                push_statement(
                    out,
                    Statement {
                        name: cat2(v.name.as_str(), "__init"),
                        domain: Region::Read(v.domain.text.clone()),
                        ndims: v.domain.ndims,
                        kind: StatementKind::ReduceInit {
                            reduce_local: &v.name,
                            operator,
                            body_context: first_names(body_context, v.domain.ndims),
                        },
                    },
                );
                push_statement(
                    out,
                    Statement {
                        name: cat2(v.name.as_str(), "__reduce"),
                        domain: in_both(
                            Region::Read(reduced.extent.clone()),
                            Region::Read(reduced.context.clone()),
                        ),
                        ndims: reduced.total,
                        kind: StatementKind::ReduceStep {
                            reduce_local: &v.name,
                            operator,
                            body,
                            body_context,
                            projection,
                        },
                    },
                );
                return Ok(());
            }
        }
    }
    push_statement(
        out,
        Statement {
            name: v.name.clone(),
            domain: Region::Read(v.domain.text.clone()),
            ndims: v.domain.ndims,
            kind: StatementKind::Ordinary { equations: eqs },
        },
    );
    Ok(())
}

/// The statements of a list of variables, in order; one without an equation has none.
pub open spec fn all_variable_statements(bodies: Seq<SystemBody>, vars: Seq<Variable>) -> StatementsOutcome
    decreases vars.len(),
{
    if vars.len() == 0 {
        Ok(Seq::empty())
    } else {
        match all_variable_statements(bodies, vars.drop_last()) {
            Err(f) => Err(f),
            Ok(before) => {
                let eqs = equations_of(bodies, vars.last().name@);
                if eqs.len() == 0 {
                    Ok(before)
                } else {
                    match variable_statements(vars.last(), eqs) {
                        Err(f) => Err(f),
                        Ok(more) => Ok(before + more),
                    }
                }
            },
        }
    }
}

proof fn lemma_variable_statements_stop(bodies: Seq<SystemBody>, vars: Seq<Variable>, n: int)
    requires
        0 <= n <= vars.len(),
        all_variable_statements(bodies, vars.take(n)) is Err,
    ensures
        all_variable_statements(bodies, vars) == all_variable_statements(bodies, vars.take(n)),
    decreases vars.len() - n,
{
    if n < vars.len() {
        assert(vars.take(n + 1).drop_last() =~= vars.take(n));
        lemma_variable_statements_stop(bodies, vars, n + 1);
    } else {
        assert(vars.take(n) =~= vars);
    }
}

fn push_variables<'a>(
    bodies: &'a Vec<SystemBody>,
    vars: &'a Vec<Variable>,
    out: &mut Vec<Statement<'a>>,
) -> (r: Result<()>)
    requires
        all_equations_wf(bodies@),
        all_statements_wf(statements_model(old(out)@)),
    ensures
        match all_variable_statements(bodies@, vars@) {
            Ok(more) => {
                &&& r is Ok
                &&& statements_model(final(out)@) == statements_model(old(out)@) + more
                &&& all_statements_wf(statements_model(final(out)@))
            },
            Err(f) => r matches Err(e) && e@ == f,
        },
{
    let ghost start = statements_model(out@);
    let mut i: usize = 0;
    proof {
        assert(vars@.take(0) =~= Seq::empty());
        assert(start + Seq::<StatementModel>::empty() =~= start);
    }
    while i < vars.len()
        invariant
            i <= vars.len(),
            all_equations_wf(bodies@),
            all_statements_wf(statements_model(out@)),
            all_variable_statements(bodies@, vars@.take(i as int)) matches Ok(more)
                && statements_model(out@) == start + more,
        decreases vars.len() - i,
    {
        let ghost before = all_variable_statements(bodies@, vars@.take(i as int))->Ok_0;
        proof {
            assert(vars@.take(i + 1).drop_last() =~= vars@.take(i as int));
            assert(vars@.take(i + 1).last() == vars@[i as int]);
        }
        let eqs = find_equations(bodies, vars[i].name.as_str());
        let ghost found = referred(eqs@);
        proof {
            assert(found.len() == eqs@.len());
            assert forall|k: int| 0 <= k < found.len() implies expr_wf((#[trigger] found[k]).1.expr) by {
                assert(expr_wf(eqs@[k].1.expr));
            }
        }
        if eqs.len() > 0 {
            match push_statements_for_variable(&vars[i], eqs, out) {
                Ok(()) => {
                    proof {
                        let more = variable_statements(vars@[i as int], found)->Ok_0;
                        assert(expr_wf(found[0].1.expr));
                        assert(all_statements_wf(more));
                        assert(statements_model(out@) =~= start + (before + more));
                    }
                },
                Err(e) => {
                    proof {
                        lemma_variable_statements_stop(bodies@, vars@, i + 1);
                    }
                    return Err(e);
                },
            }
        }
        i += 1;
    }
    proof {
        assert(vars@.take(i as int) =~= vars@);
    }
    Ok(())
}

/// What the statement of a call is called after.
pub open spec fn call_base(c: OperationCall) -> Seq<char> {
    if c.outputs@.len() > 0 {
        c.outputs@[0].variable@
    } else {
        c.operation.spelling()
    }
}

fn base_of(c: &OperationCall) -> (r: String)
    ensures
        r@ == call_base(*c),
{
    if c.outputs.len() > 0 {
        c.outputs[0].variable.clone()
    } else {
        c.operation.name().to_owned()
    }
}

/// The operation calls of a list of equations, in order.
pub open spec fn body_calls(eqs: Seq<Equation>) -> Seq<OperationCall>
    decreases eqs.len(),
{
    if eqs.len() == 0 {
        Seq::empty()
    } else {
        match eqs.last() {
            Equation::OperationCall(c) => body_calls(eqs.drop_last()).push(c),
            _ => body_calls(eqs.drop_last()),
        }
    }
}

/// The operation calls of a system, in order.
pub open spec fn all_calls(bodies: Seq<SystemBody>) -> Seq<OperationCall>
    decreases bodies.len(),
{
    if bodies.len() == 0 {
        Seq::empty()
    } else {
        all_calls(bodies.drop_last()) + body_calls(bodies.last().equations@)
    }
}

/// How many calls are called after `base`.
pub open spec fn count_base(calls: Seq<OperationCall>, base: Seq<char>) -> nat
    decreases calls.len(),
{
    if calls.len() == 0 {
        0
    } else {
        count_base(calls.drop_last(), base) + (if call_base(calls.last()) == base {
            1nat
        } else {
            0nat
        })
    }
}

/// The statement of each call, numbered among those with the same base.
pub open spec fn call_statements(calls: Seq<OperationCall>) -> Seq<StatementModel> {
    Seq::new(
        calls.len(),
        |i: int|
            StatementModel {
                name: call_base(calls[i]) + "__call"@ + dec(
                    count_base(calls.take(i), call_base(calls[i])),
                ),
                domain: RegionModel::Read(calls[i].domain@),
                ndims: calls[i].ndims,
                kind: KindModel::OperationCall(calls[i]),
            },
    )
}

fn collect_calls<'a>(bodies: &'a Vec<SystemBody>) -> (r: Vec<&'a OperationCall>)
    ensures
        referred_calls(r@) == all_calls(bodies@),
{
    let mut out: Vec<&'a OperationCall> = Vec::new();
    let mut b: usize = 0;
    proof {
        assert(bodies@.take(0) =~= Seq::empty());
        assert(referred_calls(out@) =~= Seq::empty());
    }
    while b < bodies.len()
        invariant
            b <= bodies.len(),
            referred_calls(out@) == all_calls(bodies@.take(b as int)),
        decreases bodies.len() - b,
    {
        let ghost start = referred_calls(out@);
        let eqs = &bodies[b].equations;
        let mut q: usize = 0;
        proof {
            assert(eqs@.take(0) =~= Seq::empty());
            assert(start + Seq::<OperationCall>::empty() =~= start);
        }
        while q < eqs.len()
            invariant
                q <= eqs.len(),
                referred_calls(out@) == start + body_calls(eqs@.take(q as int)),
            decreases eqs.len() - q,
        {
            let ghost before = referred_calls(out@);
            let ghost own = body_calls(eqs@.take(q as int));
            proof {
                assert(eqs@.take(q + 1).drop_last() =~= eqs@.take(q as int));
                assert(eqs@.take(q + 1).last() == eqs@[q as int]);
            }
            if let Equation::OperationCall(c) = &eqs[q] {
                out.push(c);
                proof {
                    assert(referred_calls(out@) =~= before.push(*c));
                    assert(before.push(*c) =~= start + own.push(*c));
                }
            }
            q += 1;
        }
        proof {
            assert(eqs@.take(q as int) =~= eqs@);
            assert(bodies@.take(b + 1).drop_last() =~= bodies@.take(b as int));
            assert(bodies@.take(b + 1).last() == bodies@[b as int]);
        }
        b += 1;
    }
    proof {
        assert(bodies@.take(b as int) =~= bodies@);
    }
    out
}

pub open spec fn referred_calls(v: Seq<&OperationCall>) -> Seq<OperationCall> {
    Seq::new(v.len(), |i: int| *v[i])
}

fn count_before(calls: &Vec<&OperationCall>, n: usize, base: &str) -> (r: usize)
    requires
        n <= calls@.len(),
    ensures
        r == count_base(referred_calls(calls@).take(n as int), base@),
{
    let mut k: usize = 0;
    let mut i: usize = 0;
    let ghost all = referred_calls(calls@);
    proof {
        assert(all.take(0) =~= Seq::empty());
    }
    while i < n
        invariant
            i <= n <= calls@.len(),
            all == referred_calls(calls@),
            k == count_base(all.take(i as int), base@),
            k <= i,
        decreases n - i,
    {
        proof {
            assert(all.take(i + 1).drop_last() =~= all.take(i as int));
            assert(all.take(i + 1).last() == all[i as int]);
        }
        let own = base_of(calls[i]);
        if str_eq(own.as_str(), base) {
            k += 1;
        }
        i += 1;
    }
    k
}

/// Some statement before position `n` has this name.
pub open spec fn named_before(v: Seq<StatementModel>, n: int, name: Seq<char>) -> bool {
    exists|i: int| 0 <= i < n && (#[trigger] v[i]).name == name
}

/// The first statement whose name an earlier one has; there may be none.
pub open spec fn first_duplicate(v: Seq<StatementModel>) -> Option<Seq<char>>
    decreases v.len(),
{
    if v.len() == 0 {
        None
    } else {
        match first_duplicate(v.drop_last()) {
            Some(name) => Some(name),
            None => if named_before(v, v.len() - 1, v.last().name) {
                Some(v.last().name)
            } else {
                None
            },
        }
    }
}

fn find_duplicate(v: &Vec<Statement>) -> (r: Option<String>)
    ensures
        match r {
            Some(name) => first_duplicate(statements_model(v@)) == Some(name@),
            None => first_duplicate(statements_model(v@)) is None,
        },
{
    let ghost all = statements_model(v@);
    let mut i: usize = 0;
    proof {
        assert(all.take(0) =~= Seq::empty());
    }
    while i < v.len()
        invariant
            i <= v.len(),
            all == statements_model(v@),
            first_duplicate(all.take(i as int)) is None,
        decreases v.len() - i,
    {
        proof {
            assert(all.take(i + 1).drop_last() =~= all.take(i as int));
            assert(all.take(i + 1).last() == all[i as int]);
        }
        let mut j: usize = 0;
        while j < i
            invariant
                j <= i < v.len(),
                all == statements_model(v@),
                forall|k: int| 0 <= k < j ==> (#[trigger] all[k]).name != all[i as int].name,
                first_duplicate(all.take(i as int)) is None,
                all.take(i + 1).drop_last() == all.take(i as int),
                all.take(i + 1).last() == all[i as int],
            decreases i - j,
        {
            if str_eq(v[j].name.as_str(), v[i].name.as_str()) {
                proof {
                    assert(all.take(i + 1)[j as int].name == all[i as int].name);
                    assert(named_before(all.take(i + 1), i as int, all[i as int].name));
                    lemma_duplicate_stays(all, i + 1);
                }
                return Some(v[i].name.clone());
            }
            j += 1;
        }
        proof {
            assert forall|k: int| 0 <= k < i implies (#[trigger] all.take(i + 1)[k]).name
                != all[i as int].name by {
                assert(all[k].name != all[i as int].name);
            }
        }
        i += 1;
    }
    proof {
        assert(all.take(i as int) =~= all);
    }
    None
}

proof fn lemma_duplicate_stays(v: Seq<StatementModel>, n: int)
    requires
        0 <= n <= v.len(),
        first_duplicate(v.take(n)) is Some,
    ensures
        first_duplicate(v) == first_duplicate(v.take(n)),
    decreases v.len() - n,
{
    if n < v.len() {
        assert(v.take(n + 1).drop_last() =~= v.take(n));
        lemma_duplicate_stays(v, n + 1);
    } else {
        assert(v.take(n) =~= v);
    }
}

/// The statements of a system.
pub open spec fn system_statements(system: System) -> StatementsOutcome {
    if has_use(system.bodies@) {
        Err(
            Failure::Unsupported(
                "UseEquation has no codegen backend — matches WriteC, which doesn't support subsystem calls either"@,
            ),
        )
    } else {
        match all_variable_statements(system.bodies@, system.outputs@) {
            Err(f) => Err(f),
            Ok(of_outputs) => match all_variable_statements(system.bodies@, system.locals@) {
                Err(f) => Err(f),
                Ok(of_locals) => {
                    let all = of_outputs + of_locals + call_statements(all_calls(system.bodies@));
                    match first_duplicate(all) {
                        Some(name) => Err(
                            Failure::InvalidSchedule(
                                "internal error: two statements both named '"@ + name
                                    + "' — normalize_reduction's naming collision avoidance should make this unreachable"@,
                            ),
                        ),
                        None => Ok(all),
                    }
                },
            },
        }
    }
}

/// Enumerates the statements of a system.
pub fn statements<'a>(system: &'a System) -> (r: Result<Vec<Statement<'a>>>)
    requires
        system.wf(),
    ensures
        statements_outcome(r) == system_statements(*system),
        r matches Ok(v) ==> all_statements_wf(statements_model(v@)),
{
    if contains_use(&system.bodies) {
        return Err(
            unsupported(
                "UseEquation has no codegen backend — matches WriteC, which doesn't support subsystem calls either",
            ),
        );
    }
    let mut out: Vec<Statement<'a>> = Vec::new();
    proof {
        assert(statements_model(out@) =~= Seq::empty());
    }
    match push_variables(&system.bodies, &system.outputs, &mut out) {
        Ok(()) => {},
        Err(e) => return Err(e),
    }
    match push_variables(&system.bodies, &system.locals, &mut out) {
        Ok(()) => {},
        Err(e) => return Err(e),
    }
    let ghost so_far = statements_model(out@);
    let calls = collect_calls(&system.bodies);
    let ghost target = call_statements(all_calls(system.bodies@));
    let mut i: usize = 0;
    proof {
        assert(so_far + target.take(0) =~= so_far);
    }
    while i < calls.len()
        invariant
            i <= calls@.len(),
            referred_calls(calls@) == all_calls(system.bodies@),
            target == call_statements(all_calls(system.bodies@)),
            all_statements_wf(statements_model(out@)),
            statements_model(out@) == so_far + target.take(i as int),
        decreases calls@.len() - i,
    {
        let base = base_of(calls[i]);
        let number = count_before(&calls, i, base.as_str());
        proof {
            assert(all_calls(system.bodies@)[i as int] == *calls@[i as int]);
        }
        push_statement(
            &mut out,
            Statement {
                name: cat3(base.as_str(), "__call", dec_usize(number).as_str()),
                domain: Region::Read(calls[i].domain.clone()),
                ndims: calls[i].ndims,
                kind: StatementKind::OperationCall(calls[i]),
            },
        );
        proof {
            assert(statements_model(out@).last() == target[i as int]);
            assert(so_far + target.take(i + 1) =~= (so_far + target.take(i as int)).push(
                target[i as int],
            ));
        }
        i += 1;
    }
    proof {
        assert(target.take(i as int) =~= target);
        let empty = Seq::<StatementModel>::empty();
        let of_outputs = all_variable_statements(system.bodies@, system.outputs@)->Ok_0;
        let of_locals = all_variable_statements(system.bodies@, system.locals@)->Ok_0;
        assert(empty + of_outputs + of_locals + target =~= of_outputs + of_locals + target);
    }
    match find_duplicate(&out) {
        Some(name) => Err(
            CodegenError::InvalidSchedule(
                cat3(
                    "internal error: two statements both named '",
                    name.as_str(),
                    "' — normalize_reduction's naming collision avoidance should make this unreachable",
                ),
            ),
        ),
        None => Ok(out),
    }
}

/// The statements of a system have pairwise different names.
pub proof fn statement_names_are_distinct(system: System, i: int, j: int)
    requires
        system_statements(system) is Ok,
        0 <= i < j < system_statements(system)->Ok_0.len(),
    ensures
        system_statements(system)->Ok_0[i].name != system_statements(system)->Ok_0[j].name,
{
    lemma_no_duplicate(system_statements(system)->Ok_0, i, j);
}

proof fn lemma_no_duplicate(v: Seq<StatementModel>, i: int, j: int)
    requires
        first_duplicate(v) is None,
        0 <= i < j < v.len(),
    ensures
        v[i].name != v[j].name,
    decreases v.len(),
{
    if j == v.len() - 1 {
        assert(!named_before(v, v.len() - 1, v.last().name));
        if v[i].name == v[j].name {
            assert(named_before(v, v.len() - 1, v.last().name));
        }
    } else {
        lemma_no_duplicate(v.drop_last(), i, j);
    }
}

} // verus!
