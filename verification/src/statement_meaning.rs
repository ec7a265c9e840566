//! What a generator makes of a system: all of its equations, its variables and its calls.
use crate::driver::{
    external_decls, flat_macro, flat_macros, interface_macro, interface_macros, lines_text,
    preamble,
};
use crate::error::Failure;
use crate::expr::{param_list, picked, piecewise_value, Backend, Emitted, Env};
use crate::ir::{
    defining, equations_of, guarded, Equation, ExprKind, OperationCall, StandardEquation, System,
    SystemBody, Variable,
};
use crate::layout::{
    arith_text, arith_value, describes, flat_index_is_position, macro_params, position, Arith,
};
use crate::relation::RegionModel;
use crate::scheduled_ir::{built, Scheduling};
use crate::scheduledc::{closing_lines, iterator_decls, scheduled_env, storage_lines, walked};
use crate::simplec::FunctionModel;
use crate::stmt::{
    all_calls, all_variable_statements, body_calls, call_statements, system_statements,
    variable_statements, KindModel, StatementModel,
};
use crate::text::{joined, views};
use crate::writec::{
    driver, eval_function, eval_functions, function_lines, global_lines, known_variables,
    macro_lines, nothing, program, program_lines, undef_lines,
};
use vstd::prelude::*;

verus! {

/// Equation `q` of body `b` is `x.1`, and `x.0` is the guard of the body.
pub open spec fn equation_stands(
    bodies: Seq<SystemBody>,
    b: int,
    q: int,
    x: (String, StandardEquation),
) -> bool {
    0 <= b < bodies.len() && 0 <= q < bodies[b].equations@.len() && bodies[b].equations@[q]
        == Equation::Standard(x.1) && bodies[b].guard == x.0
}

/// Call `c` is equation `q` of body `b`.
pub open spec fn call_stands(bodies: Seq<SystemBody>, b: int, q: int, c: OperationCall) -> bool {
    0 <= b < bodies.len() && 0 <= q < bodies[b].equations@.len() && bodies[b].equations@[q]
        == Equation::OperationCall(c)
}

proof fn lemma_defining(eqs: Seq<Equation>, name: Seq<char>, s: StandardEquation)
    ensures
        defining(eqs, name).contains(s) <==> s.variable@ == name && eqs.contains(
            Equation::Standard(s),
        ),
    decreases eqs.len(),
{
    if eqs.len() > 0 {
        let before = defining(eqs.drop_last(), name);
        lemma_defining(eqs.drop_last(), name, s);
        lemma_split(eqs, Equation::Standard(s));
        match eqs.last() {
            Equation::Standard(t) => {
                if t.variable@ == name {
                    lemma_split(before.push(t), s);
                    assert(before.push(t).drop_last() =~= before);
                }
            },
            _ => {},
        }
    }
}

proof fn lemma_split<A>(s: Seq<A>, x: A)
    requires
        s.len() > 0,
    ensures
        s.contains(x) <==> s.drop_last().contains(x) || s.last() == x,
{
    if s.contains(x) {
        let i = choose|i: int| 0 <= i < s.len() && s[i] == x;
        if i < s.len() - 1 {
            assert(s.drop_last()[i] == x);
        }
    }
    if s.drop_last().contains(x) {
        let i = choose|i: int| 0 <= i < s.len() - 1 && s.drop_last()[i] == x;
        assert(s[i] == x);
    }
}

proof fn lemma_in_sum<A>(s: Seq<A>, t: Seq<A>, x: A)
    ensures
        (s + t).contains(x) <==> s.contains(x) || t.contains(x),
{
    if s.contains(x) {
        let i = choose|i: int| 0 <= i < s.len() && s[i] == x;
        assert((s + t)[i] == x);
    }
    if t.contains(x) {
        let i = choose|i: int| 0 <= i < t.len() && t[i] == x;
        assert((s + t)[s.len() + i] == x);
    }
    if (s + t).contains(x) {
        let i = choose|i: int| 0 <= i < (s + t).len() && (s + t)[i] == x;
        if i < s.len() {
            assert(s[i] == x);
        } else {
            assert(t[i - s.len()] == x);
        }
    }
}

/// The equations that a variable is computed by are exactly the standard equations that define it
/// in any body, each under the guard of its body.
pub proof fn a_variable_is_computed_by_all_that_defines_it(
    bodies: Seq<SystemBody>,
    name: Seq<char>,
    x: (String, StandardEquation),
)
    ensures
        equations_of(bodies, name).contains(x) <==> x.1.variable@ == name && exists|b: int, q: int|
            equation_stands(bodies, b, q, x),
    decreases bodies.len(),
{
    if bodies.len() > 0 {
        let before = bodies.drop_last();
        let last = bodies.last();
        let own = defining(last.equations@, name);
        let marked = guarded(last.guard, own);
        a_variable_is_computed_by_all_that_defines_it(before, name, x);
        lemma_in_sum(equations_of(before, name), marked, x);
        lemma_defining(last.equations@, name, x.1);
        if equations_of(before, name).contains(x) {
            let (b, q) = choose|b: int, q: int| equation_stands(before, b, q, x);
            assert(equation_stands(bodies, b, q, x));
        }
        if marked.contains(x) {
            let i = choose|i: int| 0 <= i < marked.len() && marked[i] == x;
            assert(own[i] == x.1);
            let q = choose|q: int|
                0 <= q < last.equations@.len() && last.equations@[q] == Equation::Standard(x.1);
            assert(equation_stands(bodies, bodies.len() - 1, q, x));
        }
        if x.1.variable@ == name && exists|b: int, q: int| equation_stands(bodies, b, q, x) {
            let (b, q) = choose|b: int, q: int| equation_stands(bodies, b, q, x);
            if b < before.len() {
                assert(equation_stands(before, b, q, x));
            } else {
                assert(last.equations@[q] == Equation::Standard(x.1));
                assert(own.contains(x.1));
                let i = choose|i: int| 0 <= i < own.len() && own[i] == x.1;
                assert(marked[i] == x);
            }
        }
    }
}

/// The equations of earlier bodies come before those of later ones.
pub proof fn equations_keep_the_order_of_their_bodies(
    bodies: Seq<SystemBody>,
    name: Seq<char>,
    n: int,
)
    requires
        0 <= n <= bodies.len(),
    ensures
        equations_of(bodies.take(n), name).is_prefix_of(equations_of(bodies, name)),
    decreases bodies.len() - n,
{
    if n < bodies.len() {
        equations_keep_the_order_of_their_bodies(bodies, name, n + 1);
        assert(bodies.take(n + 1).drop_last() =~= bodies.take(n));
    } else {
        assert(bodies.take(n) =~= bodies);
    }
}

/// Its single equation folds the values of a body.
pub open spec fn is_folded(eqs: Seq<(String, StandardEquation)>) -> bool {
    eqs.len() == 1 && (*eqs[0].1.expr.kind matches ExprKind::Reduce { is_arg_reduce, .. }
        && !is_arg_reduce)
}

/// A statement of `all` evaluates all the equations of `v` at the points of its domain.
pub open spec fn is_evaluated(
    all: Seq<StatementModel>,
    v: Variable,
    eqs: Seq<(String, StandardEquation)>,
    i: int,
) -> bool {
    0 <= i < all.len() && all[i].name == v.name@ && all[i].ndims == v.domain.ndims && all[i].domain
        == RegionModel::Read(v.domain.text@) && all[i].kind == (KindModel::Ordinary { equations: eqs })
}

/// A statement of `all` starts the fold of `v` at the points of its domain, with the operator of
/// the fold.
pub open spec fn is_started(
    all: Seq<StatementModel>,
    v: Variable,
    eqs: Seq<(String, StandardEquation)>,
    i: int,
) -> bool {
    0 <= i < all.len() && all[i].name == v.name@ + "__init"@ && all[i].ndims == v.domain.ndims
        && all[i].domain == RegionModel::Read(v.domain.text@) && (
    *eqs[0].1.expr.kind matches ExprKind::Reduce { operator: of, .. } && (
    all[i].kind matches KindModel::ReduceInit { reduce_local, operator, .. } && reduce_local == v.name@
        && operator == of))
}

/// A statement of `all` folds the body of `v` in, with the operator of the fold, at the points
/// where the body is both defined and needed, into the point that each projects to.
pub open spec fn is_stepped(
    all: Seq<StatementModel>,
    v: Variable,
    eqs: Seq<(String, StandardEquation)>,
    i: int,
) -> bool {
    0 <= i < all.len() && all[i].name == v.name@ + "__reduce"@ && (
    *eqs[0].1.expr.kind matches ExprKind::Reduce {
        operator: of,
        body_context: names,
        body: folded,
        projection: onto,
        domain: Some(d),
        ..
    } && all[i].ndims == d.total && all[i].domain == RegionModel::Both(
        Box::new(RegionModel::Read(d.extent@)),
        Box::new(RegionModel::Read(d.context@)),
    ) && all[i].kind == (KindModel::ReduceStep {
        reduce_local: v.name@,
        operator: of,
        body: folded,
        body_context: views(names@),
        projection: onto,
    }))
}

/// What computes `v` is among `all`.
pub open spec fn is_computed(
    all: Seq<StatementModel>,
    v: Variable,
    eqs: Seq<(String, StandardEquation)>,
) -> bool {
    if is_folded(eqs) {
        (exists|i: int| is_started(all, v, eqs, i)) && exists|j: int| is_stepped(all, v, eqs, j)
    } else {
        exists|i: int| is_evaluated(all, v, eqs, i)
    }
}

proof fn lemma_computed_in(
    all: Seq<StatementModel>,
    part: Seq<StatementModel>,
    k: int,
    v: Variable,
    eqs: Seq<(String, StandardEquation)>,
)
    requires
        0 <= k <= k + part.len() <= all.len(),
        all.subrange(k, k + part.len()) == part,
        is_computed(part, v, eqs),
    ensures
        is_computed(all, v, eqs),
{
    assert forall|i: int| 0 <= i < part.len() implies #[trigger] part[i] == all[k + i] by {
        assert(all.subrange(k, k + part.len())[i] == all[k + i]);
    }
    if is_folded(eqs) {
        let i = choose|i: int| is_started(part, v, eqs, i);
        let j = choose|j: int| is_stepped(part, v, eqs, j);
        assert(is_started(all, v, eqs, k + i));
        assert(is_stepped(all, v, eqs, k + j));
    } else {
        let i = choose|i: int| is_evaluated(part, v, eqs, i);
        assert(is_evaluated(all, v, eqs, k + i));
    }
}

proof fn lemma_own_statements(v: Variable, eqs: Seq<(String, StandardEquation)>)
    requires
        eqs.len() > 0,
        variable_statements(v, eqs) is Ok,
    ensures
        is_computed(variable_statements(v, eqs)->Ok_0, v, eqs),
{
    let own = variable_statements(v, eqs)->Ok_0;
    if is_folded(eqs) {
        assert(is_started(own, v, eqs, 0));
        assert(is_stepped(own, v, eqs, 1));
    } else {
        assert(is_evaluated(own, v, eqs, 0));
    }
}

proof fn lemma_variables_computed(bodies: Seq<SystemBody>, vars: Seq<Variable>, k: int)
    requires
        0 <= k < vars.len(),
        all_variable_statements(bodies, vars) is Ok,
        equations_of(bodies, vars[k].name@).len() > 0,
    ensures
        is_computed(
            all_variable_statements(bodies, vars)->Ok_0,
            vars[k],
            equations_of(bodies, vars[k].name@),
        ),
    decreases vars.len(),
{
    let all = all_variable_statements(bodies, vars)->Ok_0;
    let before = all_variable_statements(bodies, vars.drop_last())->Ok_0;
    let eqs = equations_of(bodies, vars[k].name@);
    let n = before.len() as int;
    if k == vars.len() - 1 {
        lemma_own_statements(vars[k], eqs);
        let own = variable_statements(vars[k], eqs)->Ok_0;
        assert(all.subrange(n, n + own.len()) =~= own);
        lemma_computed_in(all, own, n, vars[k], eqs);
    } else {
        lemma_variables_computed(bodies, vars.drop_last(), k);
        assert(all.subrange(0, n) =~= before);
        lemma_computed_in(all, before, 0, vars[k], eqs);
    }
}

proof fn lemma_body_calls(eqs: Seq<Equation>, c: OperationCall)
    ensures
        body_calls(eqs).contains(c) <==> eqs.contains(Equation::OperationCall(c)),
    decreases eqs.len(),
{
    if eqs.len() > 0 {
        let before = body_calls(eqs.drop_last());
        lemma_body_calls(eqs.drop_last(), c);
        lemma_split(eqs, Equation::OperationCall(c));
        match eqs.last() {
            Equation::OperationCall(d) => {
                lemma_split(before.push(d), c);
                assert(before.push(d).drop_last() =~= before);
            },
            _ => {},
        }
    }
}

proof fn lemma_all_calls(bodies: Seq<SystemBody>, c: OperationCall)
    ensures
        all_calls(bodies).contains(c) <==> exists|b: int, q: int| call_stands(bodies, b, q, c),
    decreases bodies.len(),
{
    if bodies.len() > 0 {
        let before = bodies.drop_last();
        let last = bodies.last();
        lemma_all_calls(before, c);
        lemma_body_calls(last.equations@, c);
        lemma_in_sum(all_calls(before), body_calls(last.equations@), c);
        if all_calls(before).contains(c) {
            let (b, q) = choose|b: int, q: int| call_stands(before, b, q, c);
            assert(call_stands(bodies, b, q, c));
        }
        if body_calls(last.equations@).contains(c) {
            let q = choose|q: int|
                0 <= q < last.equations@.len() && last.equations@[q] == Equation::OperationCall(c);
            assert(call_stands(bodies, bodies.len() - 1, q, c));
        }
        if exists|b: int, q: int| call_stands(bodies, b, q, c) {
            let (b, q) = choose|b: int, q: int| call_stands(bodies, b, q, c);
            if b < before.len() {
                assert(call_stands(before, b, q, c));
            } else {
                assert(last.equations@[q] == Equation::OperationCall(c));
            }
        }
    }
}

/// Whoever is asked for the statements of a system gets what computes every output and every local
/// that has an equation: a statement with all its equations or, for a single fold, one that starts
/// it and one that folds in.
pub proof fn every_defined_variable_has_its_statements(system: System, v: Variable)
    requires
        system_statements(system) is Ok,
        system.outputs@.contains(v) || system.locals@.contains(v),
        equations_of(system.bodies@, v.name@).len() > 0,
    ensures
        is_computed(system_statements(system)->Ok_0, v, equations_of(system.bodies@, v.name@)),
{
    let bodies = system.bodies@;
    let eqs = equations_of(bodies, v.name@);
    let all = system_statements(system)->Ok_0;
    let outputs = all_variable_statements(bodies, system.outputs@)->Ok_0;
    let locals = all_variable_statements(bodies, system.locals@)->Ok_0;
    let n = outputs.len() as int;
    if system.outputs@.contains(v) {
        let k = choose|k: int| 0 <= k < system.outputs@.len() && system.outputs@[k] == v;
        lemma_variables_computed(bodies, system.outputs@, k);
        assert(all.subrange(0, n) =~= outputs);
        lemma_computed_in(all, outputs, 0, v, eqs);
    } else {
        let k = choose|k: int| 0 <= k < system.locals@.len() && system.locals@[k] == v;
        lemma_variables_computed(bodies, system.locals@, k);
        assert(all.subrange(n, n + locals.len()) =~= locals);
        lemma_computed_in(all, locals, n, v, eqs);
    }
}

/// Every operation call of every body is a statement, on the domain of the call; and no statement
/// makes another call.
pub proof fn every_call_is_a_statement(system: System, c: OperationCall)
    requires
        system_statements(system) is Ok,
    ensures
        (exists|b: int, q: int| call_stands(system.bodies@, b, q, c)) ==> exists|i: int|
            0 <= i < system_statements(system)->Ok_0.len() && {
                let s = #[trigger] system_statements(system)->Ok_0[i];
                s.kind == KindModel::OperationCall(c) && s.domain == RegionModel::Read(c.domain@)
                    && s.ndims == c.ndims
            },
        (exists|i: int|
            0 <= i < system_statements(system)->Ok_0.len() && (
            #[trigger] system_statements(system)->Ok_0[i]).kind == KindModel::OperationCall(c))
            ==> exists|b: int, q: int| call_stands(system.bodies@, b, q, c),
{
    let bodies = system.bodies@;
    let all = system_statements(system)->Ok_0;
    let outputs = all_variable_statements(bodies, system.outputs@)->Ok_0;
    let locals = all_variable_statements(bodies, system.locals@)->Ok_0;
    let calls = all_calls(bodies);
    let of_calls = call_statements(calls);
    let n = (outputs.len() + locals.len()) as int;
    lemma_all_calls(bodies, c);
    lemma_no_call(bodies, system.outputs@);
    lemma_no_call(bodies, system.locals@);
    if calls.contains(c) {
        let k = choose|k: int| 0 <= k < calls.len() && calls[k] == c;
        assert(all[n + k] == of_calls[k]);
    }
    if exists|i: int| 0 <= i < all.len() && (#[trigger] all[i]).kind == KindModel::OperationCall(c) {
        let i = choose|i: int|
            0 <= i < all.len() && (#[trigger] all[i]).kind == KindModel::OperationCall(c);
        if i < outputs.len() {
            assert(outputs[i] == all[i]);
        } else if i < n {
            assert(locals[i - outputs.len()] == all[i]);
        } else {
            assert(of_calls[i - n] == all[i]);
            assert(calls[i - n] == c);
        }
    }
}

proof fn lemma_no_call(bodies: Seq<SystemBody>, vars: Seq<Variable>)
    requires
        all_variable_statements(bodies, vars) is Ok,
    ensures
        forall|i: int|
            0 <= i < all_variable_statements(bodies, vars)->Ok_0.len() ==> (
            #[trigger] all_variable_statements(bodies, vars)->Ok_0[i]).kind !is OperationCall,
    decreases vars.len(),
{
    if vars.len() > 0 {
        lemma_no_call(bodies, vars.drop_last());
        let before = all_variable_statements(bodies, vars.drop_last())->Ok_0;
        let all = all_variable_statements(bodies, vars)->Ok_0;
        assert forall|i: int| 0 <= i < all.len() implies (#[trigger] all[i]).kind !is OperationCall by {
            if i < before.len() {
                assert(before[i] == all[i]);
            }
        }
    }
}

/// Some function of `fns` evaluates `v`: it stores the text of its equations at the point that it
/// is called with.
pub open spec fn is_evaluated_by(
    env: Env,
    v: Variable,
    eqs: Seq<(String, StandardEquation)>,
    f: FunctionModel,
) -> bool {
    let names = picked(views(eqs[0].1.index_names@), v.domain.ndims as nat, "i"@);
    exists|st: Emitted| (#[trigger] piecewise_value(env, st, names, eqs)).0 is Ok && f
        == eval_function(v.name@, names, piecewise_value(env, st, names, eqs).0->Ok_0)
}

proof fn lemma_functions(env: Env, st: Emitted, bodies: Seq<SystemBody>, vars: Seq<Variable>, k: int)
    requires
        0 <= k < vars.len(),
        eval_functions(env, st, bodies, vars).0 is Ok,
        equations_of(bodies, vars[k].name@).len() > 0,
    ensures
        exists|f: FunctionModel| #[trigger]
            eval_functions(env, st, bodies, vars).0->Ok_0.contains(f) && is_evaluated_by(
                env,
                vars[k],
                equations_of(bodies, vars[k].name@),
                f,
            ),
    decreases vars.len(),
{
    let eqs = equations_of(bodies, vars[k].name@);
    let before = eval_functions(env, st, bodies, vars.drop_last());
    let all = eval_functions(env, st, bodies, vars).0->Ok_0;
    if k == vars.len() - 1 {
        let f = all[all.len() - 1];
        let names = picked(views(eqs[0].1.index_names@), vars[k].domain.ndims as nat, "i"@);
        assert(piecewise_value(env, before.1, names, eqs).0 is Ok);
        assert(is_evaluated_by(env, vars[k], eqs, f));
        assert(all.contains(f));
    } else {
        lemma_functions(env, st, bodies, vars.drop_last(), k);
        let f = choose|f: FunctionModel| #[trigger]
            before.0->Ok_0.contains(f) && is_evaluated_by(env, vars[k], eqs, f);
        let i = choose|i: int| 0 <= i < before.0->Ok_0.len() && before.0->Ok_0[i] == f;
        assert(all[i] == f);
        assert(all.contains(f));
    }
}

/// A text holds a line, set off by line ends on both sides or by the ends of the text.
pub open spec fn holds_line(text: Seq<char>, line: Seq<char>) -> bool {
    exists|before: Seq<char>, after: Seq<char>|
        text == #[trigger] (before + line + "\n"@ + after) && (before.len() == 0 || before.last()
            == '\n')
}

proof fn lemma_holds_line(lines: Seq<Seq<char>>, k: int)
    requires
        0 <= k < lines.len(),
    ensures
        holds_line(lines_text(lines), lines[k]),
    decreases lines.len(),
{
    reveal_strlit("\n");
    let start = lines_text(lines.drop_last());
    if k == lines.len() - 1 {
        if lines.drop_last().len() > 0 {
            assert(start.last() == '\n');
        }
        assert(lines_text(lines) =~= start + lines[k] + "\n"@ + Seq::<char>::empty());
    } else {
        lemma_holds_line(lines.drop_last(), k);
        let (before, after) = choose|before: Seq<char>, after: Seq<char>|
            start == #[trigger] (before + lines[k] + "\n"@ + after) && (before.len() == 0
                || before.last() == '\n');
        let more = after + lines.last() + "\n"@;
        assert(lines_text(lines) =~= before + lines[k] + "\n"@ + more);
    }
}

/// How the program of a system on demand knows its names.
pub open spec fn demand_env(system: System) -> Env {
    Env {
        backend: Backend::WriteC,
        variables: known_variables(system),
        params: param_list(system.bodies@[0].params@),
    }
}

/// The program of a system on demand declares and defines a function for every output and every
/// local that has an equation, which stores what the equations say.
pub proof fn a_program_on_demand_evaluates_every_variable(system: System, v: Variable)
    requires
        program(system) is Ok,
        system.outputs@.contains(v) || system.locals@.contains(v),
        equations_of(system.bodies@, v.name@).len() > 0,
    ensures
        exists|f: FunctionModel|
            is_evaluated_by(demand_env(system), v, equations_of(system.bodies@, v.name@), f)
                && holds_line(program(system)->Ok_0, #[trigger] f.definition()) && holds_line(
                program(system)->Ok_0,
                f.header() + ";"@,
            ),
{
    let env = demand_env(system);
    let bodies = system.bodies@;
    let first = eval_functions(env, nothing(), bodies, system.outputs@);
    let second = eval_functions(env, first.1, bodies, system.locals@);
    let fns = first.0->Ok_0 + second.0->Ok_0;
    let d = driver(env.params, system)->Ok_0;
    let lines = program_lines(system, env.params, second.1, fns, d);
    let eqs = equations_of(bodies, v.name@);
    let f = if system.outputs@.contains(v) {
        let k = choose|k: int| 0 <= k < system.outputs@.len() && system.outputs@[k] == v;
        lemma_functions(env, nothing(), bodies, system.outputs@, k);
        choose|f: FunctionModel| #[trigger]
            first.0->Ok_0.contains(f) && is_evaluated_by(env, v, eqs, f)
    } else {
        let k = choose|k: int| 0 <= k < system.locals@.len() && system.locals@[k] == v;
        lemma_functions(env, first.1, bodies, system.locals@, k);
        choose|f: FunctionModel| #[trigger]
            second.0->Ok_0.contains(f) && is_evaluated_by(env, v, eqs, f)
    };
    lemma_in_sum(first.0->Ok_0, second.0->Ok_0, f);
    lemma_function_lines(system, env.params, second.1, fns, d, f);
    let i = choose|i: int| 0 <= i < lines.len() && lines[i] == f.definition();
    let j = choose|j: int| 0 <= j < lines.len() && lines[j] == f.header() + ";"@;
    lemma_holds_line(lines, i);
    lemma_holds_line(lines, j);
}

proof fn lemma_function_lines(
    system: System,
    params: Seq<Seq<char>>,
    emitted: Emitted,
    fns: Seq<FunctionModel>,
    d: FunctionModel,
    f: FunctionModel,
)
    requires
        fns.contains(f) || emitted.reduce_fns.contains(f) || f == d,
    ensures
        program_lines(system, params, emitted, fns, d).contains(f.definition()),
        program_lines(system, params, emitted, fns, d).contains(f.header() + ";"@),
{
    let all = program_lines(system, params, emitted, fns, d);
    let own = function_lines(emitted.reduce_fns, fns, d);
    let head = seq!["// This code was auto-generated by alphac (alpha-rs)."@, ""@]
        + preamble() + external_decls(emitted.externals)
        + global_lines(system, params) + macro_lines(system);
    let foot = undef_lines(system);
    assert(all =~= head + own + foot);
    let r = emitted.reduce_fns.len() as int;
    let n = fns.len() as int;
    let (at, to) = if fns.contains(f) {
        let k = choose|k: int| 0 <= k < n && fns[k] == f;
        assert((2 * k) / 2 == k);
        (1 + r + k, 1 + r + n + 2 + 2 * r + 2 * k)
    } else if emitted.reduce_fns.contains(f) {
        let k = choose|k: int| 0 <= k < r && emitted.reduce_fns[k] == f;
        assert((2 * k) / 2 == k);
        (1 + k, 1 + r + n + 2 + 2 * k)
    } else {
        (1 + r + n, 1 + r + n + 2 + 2 * r + 2 * n)
    };
    assert(own[at] == f.header() + ";"@);
    assert(own[to] == f.definition());
    assert(all[head.len() + at] == own[at]);
    assert(all[head.len() + to] == own[to]);
}

/// The program of a system on demand declares and defines its entry point and every function of a
/// reduction that its expressions call.
pub proof fn a_program_on_demand_holds_its_functions(system: System, f: FunctionModel)
    requires
        program(system) is Ok,
        ({
            let env = demand_env(system);
            let first = eval_functions(env, nothing(), system.bodies@, system.outputs@);
            let second = eval_functions(env, first.1, system.bodies@, system.locals@);
            second.1.reduce_fns.contains(f) || driver(env.params, system) == Ok::<
                FunctionModel,
                Failure,
            >(f)
        }),
    ensures
        holds_line(program(system)->Ok_0, f.definition()),
        holds_line(program(system)->Ok_0, f.header() + ";"@),
{
    let env = demand_env(system);
    let bodies = system.bodies@;
    let first = eval_functions(env, nothing(), bodies, system.outputs@);
    let second = eval_functions(env, first.1, bodies, system.locals@);
    let fns = first.0->Ok_0 + second.0->Ok_0;
    let d = driver(env.params, system)->Ok_0;
    let lines = program_lines(system, env.params, second.1, fns, d);
    lemma_function_lines(system, env.params, second.1, fns, d, f);
    let i = choose|i: int| 0 <= i < lines.len() && lines[i] == f.definition();
    let j = choose|j: int| 0 <= j < lines.len() && lines[j] == f.header() + ";"@;
    lemma_holds_line(lines, i);
    lemma_holds_line(lines, j);
}

/// A scheduled program declares and defines the entry point around what its loops emit.
pub proof fn a_scheduled_program_holds_its_entry_point(
    system: System,
    text: Seq<char>,
    s: Scheduling,
)
    requires
        crate::scheduledc::program(system, text, s) is Ok,
    ensures
        ({
            let env = scheduled_env(system);
            let p = built(system, text, s)->Ok_0;
            let w = walked(env, nothing(), Seq::empty(), p.root, p.statements);
            let d = crate::scheduledc::driver(
                env.params,
                system,
                iterator_decls(w.iterators) + w.stmts->Ok_0,
            );
            let out = crate::scheduledc::program(system, text, s)->Ok_0;
            &&& built(system, text, s) is Ok
            &&& w.stmts is Ok
            &&& d is Ok
            &&& holds_line(out, d->Ok_0.definition())
            &&& holds_line(out, d->Ok_0.header() + ";"@)
        }),
{
    let env = scheduled_env(system);
    let p = built(system, text, s)->Ok_0;
    let w = walked(env, nothing(), Seq::empty(), p.root, p.statements);
    let d = crate::scheduledc::driver(
        env.params,
        system,
        iterator_decls(w.iterators) + w.stmts->Ok_0,
    )->Ok_0;
    let lines = crate::scheduledc::program_lines(system, env.params, w.emitted.externals, d);
    let foot = closing_lines(system, d);
    let start = lines.len() - foot.len();
    assert(lines.skip(start) =~= foot);
    assert(lines[start + 1] == foot[1]);
    assert(lines[start + 3] == foot[3]);
    lemma_holds_line(lines, start + 1);
    lemma_holds_line(lines, start + 3);
}

/// The macro of a variable in flat storage stands for the cell of its point: whatever the least
/// indices and the sizes are, the index in the brackets comes to the row-major position.
pub proof fn a_flat_macro_stands_for_the_cell_of_its_point(
    name: Seq<char>,
    ndims: nat,
    env: Map<Seq<char>, int>,
    point: Seq<int>,
    mins: Seq<int>,
    sizes: Seq<int>,
)
    requires
        describes(env, name, macro_params(ndims), point, mins, sizes),
    ensures
        exists|index: Arith|
            flat_macro(name, ndims) == "#define "@ + name + "("@ + joined(
                macro_params(ndims),
                ","@,
            ) + ") "@ + name + "["@ + #[trigger] arith_text(index) + "]"@ && arith_value(index, env)
                == position(point, mins, sizes),
{
    flat_index_is_position(env, name, macro_params(ndims), point, mins, sizes);
    let index = crate::layout::row_major(name, macro_params(ndims));
    assert(flat_macro(name, ndims) == "#define "@ + name + "("@ + joined(macro_params(ndims), ","@)
        + ") "@ + name + "["@ + arith_text(index) + "]"@);
}

/// Both programs give every variable its macro: an interface variable the array that was passed,
/// a local flat storage; and the program on demand gives each computed variable one for its flags.
pub proof fn every_variable_has_its_macro(system: System, params: Seq<Seq<char>>, v: Variable)
    ensures
        system.inputs@.contains(v) || system.outputs@.contains(v) ==> macro_lines(system).contains(
            interface_macro(v.name@, v.domain.ndims as nat),
        ) && storage_lines(system, params).contains(
            interface_macro(v.name@, v.domain.ndims as nat),
        ),
        system.locals@.contains(v) ==> macro_lines(system).contains(
            flat_macro(v.name@, v.domain.ndims as nat),
        ) && storage_lines(system, params).contains(flat_macro(v.name@, v.domain.ndims as nat)),
        system.outputs@.contains(v) || system.locals@.contains(v) ==> macro_lines(system).contains(
            flat_macro("_flag_"@ + v.name@, v.domain.ndims as nat),
        ),
{
    let ins = interface_macros(system.inputs@);
    let outs = interface_macros(system.outputs@);
    let flat = flat_macros(""@, system.locals@);
    let out_flags = flat_macros("_flag_"@, system.outputs@);
    let flags = flat_macros("_flag_"@, system.locals@);
    let n = v.domain.ndims as nat;
    let all = macro_lines(system);
    let stored = storage_lines(system, params);
    let start = stored.len() - 1 - flat.len() - outs.len() - ins.len();
    assert(stored.skip(start) =~= ins + outs + flat + seq![""@]);
    reveal_strlit("");
    assert(""@ + v.name@ =~= v.name@);
    if system.inputs@.contains(v) {
        let k = choose|k: int| 0 <= k < system.inputs@.len() && system.inputs@[k] == v;
        assert(all[1 + k] == ins[k]);
        assert(stored.skip(start)[k] == ins[k]);
        assert(stored[start + k] == ins[k]);
    }
    if system.outputs@.contains(v) {
        let k = choose|k: int| 0 <= k < system.outputs@.len() && system.outputs@[k] == v;
        assert(all[1 + ins.len() + k] == outs[k]);
        assert(stored.skip(start)[ins.len() + k] == outs[k]);
        assert(stored[start + ins.len() + k] == outs[k]);
        assert(all[1 + ins.len() + outs.len() + flat.len() + k] == out_flags[k]);
    }
    if system.locals@.contains(v) {
        let k = choose|k: int| 0 <= k < system.locals@.len() && system.locals@[k] == v;
        assert(all[1 + ins.len() + outs.len() + k] == flat[k]);
        assert(stored.skip(start)[ins.len() + outs.len() + k] == flat[k]);
        assert(stored[start + ins.len() + outs.len() + k] == flat[k]);
        assert(all[1 + ins.len() + outs.len() + flat.len() + out_flags.len() + k] == flags[k]);
    }
}

} // verus!
