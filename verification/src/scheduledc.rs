//! Scheduled C: one flat loop nest that runs every statement instance in the order of a schedule,
//! with one array write per instance.
use crate::driver::{
    copies, entry_params, entry_params_list, extend_lines, external_decls, flat_decls,
    flat_macro_lines, flat_macros, got_and_given_back, interface_decl_lines, interface_decls,
    interface_macro_lines, interface_macros, lemma_allocated, free_stmt, freed, lemma_freed, lemma_freed_all, names_are_freed_once, lemma_in_order,
    lemma_within, line, lines_text, local_alloc_stmts, local_allocs, malloc_stmt, preamble,
    print_lines, push_external_decls, push_flat_decls, push_param_copies, push_preamble,
    push_raw_lines, push_undefined_macros, push_var_copies, raw_stmts, stmts_outcome,
    undefined_macros, var_names, wrap_names, wrap_texts, wrapped, StmtsOutcome,
};
use crate::error::{unsupported, CodegenError, Failure, Result};
use crate::expr::{
    found, gen_piecewise, gen_value, outcome, param_list, param_names_of, pick_names, picked,
    piecewise_value, refused, value, Backend, Emitted, Env, Gen, Outcome,
};
use crate::ir::{contains_use, expr_wf, has_use, referred, Operator, System};
use crate::scheduled_ir::{
    build, built, index_models, CompareOp, IndexExpr, IndexModel, NodeModel, Predicate,
    PredicateModel, ScheduledNode, Scheduling,
};
use crate::simplec::{
    append_stmts, assign, one_stmt, push_stmt, raw, raw_line, stmts_model, CType, Function,
    FunctionModel, Stmt, StmtModel, Expr as CExpr,
};
use crate::stmt::{
    all_statements_wf, statements, statements_model, system_statements, KindModel, Statement,
    StatementKind, StatementModel,
};
use crate::text::{
    cat2, cat3, cat4, cat5, cat6, dec, dec_i64, dec_int, dec_usize, insert_name, join, joined,
    lemma_with_name, push_text, views, with_name,
};
use crate::writec::{
    accumulate, combined, function_outcome, known_variables, neutral, neutral_element, nothing,
    text_outcome, unknown_reduce, variable_table,
};
use vstd::prelude::*;

verus! {

/// `text` in parentheses where it needs them.
pub open spec fn grouped(text: Seq<char>, needed: bool) -> Seq<char> {
    if needed {
        "("@ + text + ")"@
    } else {
        text
    }
}

/// A factor whose text starts with no division: `a * b / c` is not `a * (b / c)`.
pub open spec fn plain_factor(m: IndexModel) -> bool
    decreases m,
{
    match m {
        IndexModel::Mul(l, r) => plain_factor(*l),
        IndexModel::Div(_, _) | IndexModel::Mod(_, _) => false,
        IndexModel::Min(v) => v.len() == 1 ==> plain_factor(v[0]),
        IndexModel::Max(v) => v.len() == 1 ==> plain_factor(v[0]),
        _ => true,
    }
}

/// How strongly the surroundings of a right factor bind.
pub open spec fn factor_level(m: IndexModel) -> int {
    if plain_factor(m) {
        2
    } else {
        3
    }
}

/// The C text of an index expression whose surroundings bind at the given strength: sums at 1,
/// products, quotients and remainders at 2.
pub open spec fn index_text(m: IndexModel, parent: int) -> Seq<char>
    decreases m,
{
    match m {
        IndexModel::Constant(n) => dec_int(n),
        IndexModel::Variable(s) => s,
        IndexModel::Add(l, r) => grouped(
            index_text(*l, 1) + " "@ + "+"@ + " "@ + index_text(*r, 1),
            1 < parent,
        ),
        IndexModel::Sub(l, r) => grouped(
            index_text(*l, 1) + " "@ + "-"@ + " "@ + index_text(*r, 2),
            1 < parent,
        ),
        IndexModel::Mul(l, r) => grouped(
            index_text(*l, 2) + " "@ + "*"@ + " "@ + index_text(*r, factor_level(*r)),
            2 < parent,
        ),
        IndexModel::Div(l, r) => grouped(
            index_text(*l, 2) + " "@ + "/"@ + " "@ + index_text(*r, 3),
            2 < parent,
        ),
        IndexModel::FloorDiv(l, r) => "floord("@ + index_text(*l, 0) + ", "@ + index_text(*r, 0)
            + ")"@,
        IndexModel::CeilDiv(l, r) => "ceild("@ + index_text(*l, 0) + ", "@ + index_text(*r, 0) + ")"@,
        IndexModel::Mod(l, r) => grouped(
            index_text(*l, 2) + " "@ + "%"@ + " "@ + index_text(*r, 3),
            2 < parent,
        ),
        IndexModel::Min(v) => variadic_text("min"@, v, parent),
        IndexModel::Max(v) => variadic_text("max"@, v, parent),
    }
}

/// A two-argument function folded from the left over any number of arguments. One argument stands
/// for itself in its surroundings.
pub open spec fn variadic_text(name: Seq<char>, v: Seq<IndexModel>, parent: int) -> Seq<char>
    decreases v,
{
    if v.len() == 0 {
        "0"@
    } else if v.len() == 1 {
        index_text(v[0], parent)
    } else {
        name + "("@ + variadic_text(name, v.drop_last(), 0) + ", "@ + index_text(v.last(), 0) + ")"@
    }
}

fn is_plain_factor(expression: &IndexExpr) -> (r: bool)
    ensures
        r == plain_factor(expression@),
    decreases expression,
{
    match expression {
        IndexExpr::Mul(l, _) => is_plain_factor(l),
        IndexExpr::Div(_, _) => false,
        IndexExpr::Mod(_, _) => false,
        IndexExpr::Min(v) => if v.len() == 1 {
            proof {
                assert(index_models(v@)[0] == v@[0]@);
            }
            is_plain_factor(&v[0])
        } else {
            true
        },
        IndexExpr::Max(v) => if v.len() == 1 {
            proof {
                assert(index_models(v@)[0] == v@[0]@);
            }
            is_plain_factor(&v[0])
        } else {
            true
        },
        _ => true,
    }
}

pub fn render_index(expression: &IndexExpr) -> (r: String)
    ensures
        r@ == index_text(expression@, 0),
    decreases expression, 1int,
{
    render_index_at(expression, 0)
}

fn render_index_at(expression: &IndexExpr, parent_precedence: u8) -> (r: String)
    ensures
        r@ == index_text(expression@, parent_precedence as int),
    decreases expression, 0int,
{
    match expression {
        IndexExpr::Constant(value) => dec_i64(*value),
        IndexExpr::Variable(name) => name.clone(),
        IndexExpr::Add(lhs, rhs) => {
            let l = render_index_at(lhs, 1);
            let r = render_index_at(rhs, 1);
            render_binary(l.as_str(), "+", r.as_str(), 1 < parent_precedence)
        },
        IndexExpr::Sub(lhs, rhs) => {
            let l = render_index_at(lhs, 1);
            let r = render_index_at(rhs, 2);
            render_binary(l.as_str(), "-", r.as_str(), 1 < parent_precedence)
        },
        IndexExpr::Mul(lhs, rhs) => {
            let l = render_index_at(lhs, 2);
            let level: u8 = if is_plain_factor(rhs) {
                2
            } else {
                3
            };
            let r = render_index_at(rhs, level);
            render_binary(l.as_str(), "*", r.as_str(), 2 < parent_precedence)
        },
        IndexExpr::Div(lhs, rhs) => {
            let l = render_index_at(lhs, 2);
            let r = render_index_at(rhs, 3);
            render_binary(l.as_str(), "/", r.as_str(), 2 < parent_precedence)
        },
        IndexExpr::FloorDiv(lhs, rhs) => {
            let l = render_index(lhs);
            let r = render_index(rhs);
            cat5("floord(", l.as_str(), ", ", r.as_str(), ")")
        },
        IndexExpr::CeilDiv(lhs, rhs) => {
            let l = render_index(lhs);
            let r = render_index(rhs);
            cat5("ceild(", l.as_str(), ", ", r.as_str(), ")")
        },
        IndexExpr::Mod(lhs, rhs) => {
            let l = render_index_at(lhs, 2);
            let r = render_index_at(rhs, 3);
            render_binary(l.as_str(), "%", r.as_str(), 2 < parent_precedence)
        },
        IndexExpr::Min(arguments) => render_variadic("min", arguments, parent_precedence),
        IndexExpr::Max(arguments) => render_variadic("max", arguments, parent_precedence),
    }
}

fn render_binary(l: &str, operator: &str, r: &str, protect: bool) -> (res: String)
    ensures
        res@ == grouped(l@ + " "@ + operator@ + " "@ + r@, protect),
{
    let expression = cat5(l, " ", operator, " ", r);
    if protect {
        cat3("(", expression.as_str(), ")")
    } else {
        expression
    }
}

fn render_variadic(name: &str, arguments: &Vec<IndexExpr>, parent_precedence: u8) -> (r: String)
    ensures
        r@ == variadic_text(name@, index_models(arguments@), parent_precedence as int),
    decreases arguments, 0int,
{
    if arguments.len() == 0 {
        return "0".to_owned();
    }
    let ghost all = index_models(arguments@);
    if arguments.len() == 1 {
        proof {
            assert(all[0] == arguments@[0]@);
        }
        return render_index_at(&arguments[0], parent_precedence);
    }
    let mut out = render_index(&arguments[0]);
    let mut i: usize = 1;
    proof {
        assert(all.take(1)[0] == arguments@[0]@);
    }
    while i < arguments.len()
        invariant
            1 <= i <= arguments.len(),
            all == index_models(arguments@),
            out@ == variadic_text(name@, all.take(i as int), 0),
        decreases arguments.len() - i,
    {
        proof {
            assert(all.take(i + 1).drop_last() =~= all.take(i as int));
            assert(all.take(i + 1).last() == arguments@[i as int]@);
        }
        let right = render_index(&arguments[i]);
        let left = out;
        out = cat6(name, "(", left.as_str(), ", ", right.as_str(), ")");
        i += 1;
    }
    proof {
        assert(all.take(i as int) =~= all);
    }
    out
}

pub open spec fn comparison_text(op: CompareOp) -> Seq<char> {
    match op {
        CompareOp::Eq => "=="@,
        CompareOp::Le => "<="@,
        CompareOp::Lt => "<"@,
        CompareOp::Ge => ">="@,
        CompareOp::Gt => ">"@,
    }
}

/// The C text of a predicate.
pub open spec fn predicate_text(p: PredicateModel) -> Seq<char>
    decreases p,
{
    match p {
        PredicateModel::Compare { op, lhs, rhs } => index_text(lhs, 0) + " "@ + comparison_text(op)
            + " "@ + index_text(rhs, 0),
        PredicateModel::And(v) => joined(predicate_texts(v), " && "@),
        PredicateModel::Or(v) => joined(predicate_texts(v), " || "@),
        PredicateModel::Not(p) => "!("@ + predicate_text(*p) + ")"@,
        PredicateModel::Constant(b) => if b { "1"@ } else { "0"@ },
    }
}

/// Each predicate in parentheses.
pub open spec fn predicate_texts(v: Seq<PredicateModel>) -> Seq<Seq<char>>
    decreases v,
{
    Seq::new(
        v.len(),
        |i: int|
            if 0 <= i < v.len() {
                "("@ + predicate_text(v[i]) + ")"@
            } else {
                Seq::empty()
            },
    )
}

pub fn render_predicate(predicate: &Predicate) -> (r: String)
    ensures
        r@ == predicate_text(predicate@),
    decreases predicate, 0int,
{
    match predicate {
        Predicate::Compare { op, lhs, rhs } => {
            let l = render_index(lhs);
            let r = render_index(rhs);
            let op = match op {
                CompareOp::Eq => "==",
                CompareOp::Le => "<=",
                CompareOp::Lt => "<",
                CompareOp::Ge => ">=",
                CompareOp::Gt => ">",
            };
            cat5(l.as_str(), " ", op, " ", r.as_str())
        },
        Predicate::And(arguments) => join(&render_predicates(arguments), " && "),
        Predicate::Or(arguments) => join(&render_predicates(arguments), " || "),
        Predicate::Not(argument) => {
            let p = render_predicate(argument);
            cat3("!(", p.as_str(), ")")
        },
        Predicate::Constant(value) => if *value {
            "1".to_owned()
        } else {
            "0".to_owned()
        },
    }
}

fn render_predicates(arguments: &Vec<Predicate>) -> (r: Vec<String>)
    ensures
        views(r@) == predicate_texts(crate::scheduled_ir::predicate_models(arguments@)),
    decreases arguments, 0int,
{
    let ghost all = crate::scheduled_ir::predicate_models(arguments@);
    let mut out: Vec<String> = Vec::new();
    let mut i: usize = 0;
    while i < arguments.len()
        invariant
            i <= arguments.len(),
            all == crate::scheduled_ir::predicate_models(arguments@),
            views(out@) =~= predicate_texts(all).take(i as int),
        decreases arguments.len() - i,
    {
        let p = render_predicate(&arguments[i]);
        proof {
            assert(all[i as int] == arguments@[i as int]@);
        }
        push_text(&mut out, cat3("(", p.as_str(), ")"));
        i += 1;
    }
    proof {
        assert(predicate_texts(all).take(i as int) =~= predicate_texts(all));
    }
    out
}

/// `long name = text;` for each index, as far as both lists go.
pub open spec fn bindings(names: Seq<Seq<char>>, idx: Seq<Seq<char>>) -> Seq<StmtModel> {
    Seq::new(
        if names.len() <= idx.len() { names.len() } else { idx.len() },
        |i: int| StmtModel::Decl { ty: CType::Long, name: names[i], init: Some(idx[i]) },
    )
}

/// Binds each index to the expression that the surrounding loops give it.
pub fn binding_prologue(names: &Vec<String>, idx_exprs: &Vec<String>) -> (r: Vec<Stmt>)
    ensures
        stmts_model(r@) == bindings(views(names@), views(idx_exprs@)),
{
    let mut out: Vec<Stmt> = Vec::new();
    let mut i: usize = 0;
    while i < names.len() && i < idx_exprs.len()
        invariant
            i <= names.len(),
            i <= idx_exprs.len(),
            stmts_model(out@) =~= bindings(views(names@), views(idx_exprs@)).take(i as int),
        decreases names.len() - i,
    {
        push_stmt(
            &mut out,
            Stmt::Decl {
                ty: CType::Long,
                name: names[i].clone(),
                init: Some(raw(idx_exprs[i].clone())),
            },
        );
        i += 1;
    }
    proof {
        assert(bindings(views(names@), views(idx_exprs@)).take(i as int) =~= bindings(
            views(names@),
            views(idx_exprs@),
        ));
    }
    out
}

/// The array cell of `name` at the point `names`.
pub open spec fn cell_text(name: Seq<char>, names: Seq<Seq<char>>) -> Seq<char> {
    name + "("@ + joined(names, ","@) + ")"@
}

/// The dimensionality of the storage that a reduction accumulates in.
pub open spec fn ambient_dims(env: Env, reduce_local: Seq<char>, ndims: u32) -> u32 {
    match found(env.variables, reduce_local) {
        Some(info) => info.ndims,
        None => ndims,
    }
}

/// The storage of a reduction has no more dimensions than the statement that fills it.
pub open spec fn cell_fits(env: Env, s: StatementModel) -> bool {
    match s.kind {
        KindModel::ReduceStep { reduce_local, operator, body, body_context, .. } => ambient_dims(
            env,
            reduce_local,
            s.ndims,
        ) <= s.ndims,
        _ => true,
    }
}

/// The statements that run one instance: the bindings of its indices, then one assignment.
pub open spec fn instance(env: Env, st: Emitted, s: StatementModel, idx: Seq<Seq<char>>) -> (
    StmtsOutcome,
    Emitted,
) {
    match s.kind {
        KindModel::Ordinary { equations } => {
            let names = picked(views(equations[0].1.index_names@), s.ndims as nat, "i"@);
            match piecewise_value(env, st, names, equations) {
                (Err(f), s1) => (Err(f), s1),
                (Ok(v), s1) => (
                    Ok(
                        bindings(names, idx).push(
                            StmtModel::Assign { target: cell_text(s.name, names), value: v },
                        ),
                    ),
                    s1,
                ),
            }
        },
        KindModel::ReduceInit { reduce_local, operator, body_context } => {
            let names = picked(body_context, s.ndims as nat, "i"@);
            match neutral(operator) {
                None => (Err(unknown_reduce(operator)->Err_0), st),
                Some(v) => (
                    Ok(
                        bindings(names, idx).push(
                            StmtModel::Assign { target: cell_text(reduce_local, names), value: v },
                        ),
                    ),
                    st,
                ),
            }
        },
        KindModel::ReduceStep { reduce_local, operator, body, body_context, .. } => {
            let names = picked(body_context, s.ndims as nat, "i"@);
            match value(env, st, names, body) {
                (Err(f), s1) => (Err(f), s1),
                (Ok(v), s1) => {
                    let cell = cell_text(
                        reduce_local,
                        names.take(ambient_dims(env, reduce_local, s.ndims) as int),
                    );
                    match combined(operator, cell, v) {
                        None => (Err(unknown_reduce(operator)->Err_0), s1),
                        Some(t) => (
                            Ok(
                                bindings(names, idx).push(
                                    StmtModel::Assign { target: cell, value: t },
                                ),
                            ),
                            match operator {
                                Operator::External(name) => Emitted {
                                    externals: with_name(s1.externals, name@),
                                    ..s1
                                },
                                Operator::Named(_) => s1,
                            },
                        ),
                    }
                },
            }
        },
        KindModel::OperationCall(call) => (
            Err(
                Failure::Unsupported(
                    "registered operation '"@ + call.operation.spelling()
                        + "' has no Scheduled C backend"@,
                ),
            ),
            st,
        ),
    }
}

/// The value of an accumulator after one more value.
pub fn combine(g: &mut Gen, operator: &Operator, cell: &str, value: CExpr) -> (r: Result<CExpr>)
    ensures
        final(g).env() == old(g).env(),
        match combined(*operator, cell@, value@) {
            None => outcome(r) == unknown_reduce(*operator) && final(g).emitted()
                == old(g).emitted(),
            Some(t) => outcome(r) == Ok::<Seq<char>, Failure>(t) && final(g).emitted()
                == match *operator {
                Operator::External(name) => Emitted {
                    externals: with_name(old(g).emitted().externals, name@),
                    ..old(g).emitted()
                },
                Operator::Named(_) => old(g).emitted(),
            },
        },
{
    if let Operator::External(name) = operator {
        g.add_external(name.as_str());
    }
    let text = value.to_text();
    match accumulate(operator, cell, text.as_str()) {
        Some(t) => Ok(raw(t)),
        None => match neutral_element(operator) {
            Ok(e) => Ok(e),
            Err(e) => Err(e),
        },
    }
}

fn call_text(name: &str, names: &Vec<String>) -> (r: String)
    ensures
        r@ == cell_text(name@, views(names@)),
{
    cat4(name, "(", join(names, ",").as_str(), ")")
}

fn leading(names: &Vec<String>, n: u32) -> (r: Vec<String>)
    requires
        n <= names.len(),
    ensures
        views(r@) == views(names@).take(n as int),
{
    let mut out: Vec<String> = Vec::new();
    let mut i: usize = 0;
    while i < n as usize
        invariant
            i <= n <= names.len(),
            views(out@) =~= views(names@).take(i as int),
        decreases n - i,
    {
        push_text(&mut out, names[i].clone());
        i += 1;
    }
    out
}

/// The statements that run one instance whose indices have the C values `idx_exprs`.
pub fn gen_statement_body(g: &mut Gen, stmt: &Statement, idx_exprs: &Vec<String>) -> (r: Result<
    Vec<Stmt>,
>)
    requires
        stmt@.wf(),
        cell_fits(old(g).env(), stmt@),
    ensures
        final(g).env() == old(g).env(),
        (stmts_outcome(r), final(g).emitted()) == instance(
            old(g).env(),
            old(g).emitted(),
            stmt@,
            views(idx_exprs@),
        ),
{
    match &stmt.kind {
        StatementKind::Ordinary { equations } => {
            let ghost all = referred(equations@);
            proof {
                assert(all.len() == equations@.len());
                assert(all[0] == (*equations@[0].0, *equations@[0].1));
                assert forall|i: int| 0 <= i < equations@.len() implies expr_wf(
                    (#[trigger] equations@[i]).1.expr,
                ) by {
                    assert(expr_wf(all[i].1.expr));
                }
            }
            let names = pick_names(&equations[0].1.index_names, stmt.ndims);
            let mut out = binding_prologue(&names, idx_exprs);
            let value = match gen_piecewise(g, &names, equations) {
                Ok(v) => v,
                Err(e) => return Err(e),
            };
            push_stmt(&mut out, assign(call_text(stmt.name.as_str(), &names), value));
            Ok(out)
        },
        StatementKind::ReduceInit { reduce_local, operator, body_context } => {
            let names = pick_names(body_context, stmt.ndims);
            let mut out = binding_prologue(&names, idx_exprs);
            let value = match neutral_element(operator) {
                Ok(v) => v,
                Err(e) => return Err(e),
            };
            push_stmt(&mut out, assign(call_text(reduce_local.as_str(), &names), value));
            Ok(out)
        },
        StatementKind::ReduceStep { reduce_local, operator, body, body_context, .. } => {
            let names = pick_names(body_context, stmt.ndims);
            proof {
                assert(views(names@).len() == names@.len());
            }
            let mut out = binding_prologue(&names, idx_exprs);
            let value = match gen_value(g, &names, body) {
                Ok(v) => v,
                Err(e) => return Err(e),
            };
            let ambient: u32 = match g.variable(reduce_local.as_str()) {
                Some(info) => info.ndims,
                None => stmt.ndims,
            };
            let cell = call_text(reduce_local.as_str(), &leading(&names, ambient));
            let combined = match combine(g, operator, cell.as_str(), value) {
                Ok(v) => v,
                Err(e) => return Err(e),
            };
            push_stmt(&mut out, assign(cell, combined));
            Ok(out)
        },
        StatementKind::OperationCall(call) => Err(
            CodegenError::Unsupported(
                cat3(
                    "registered operation '",
                    call.operation.name(),
                    "' has no Scheduled C backend",
                ),
            ),
        ),
    }
}

/// The C texts of a list of index expressions.
pub open spec fn index_texts(v: Seq<IndexModel>) -> Seq<Seq<char>> {
    Seq::new(v.len(), |i: int| index_text(v[i], 0))
}

fn render_indices(v: &Vec<IndexExpr>) -> (r: Vec<String>)
    ensures
        views(r@) == index_texts(index_models(v@)),
{
    let mut out: Vec<String> = Vec::new();
    let mut i: usize = 0;
    while i < v.len()
        invariant
            i <= v.len(),
            views(out@) =~= index_texts(index_models(v@)).take(i as int),
        decreases v.len() - i,
    {
        push_text(&mut out, render_index(&v[i]));
        i += 1;
    }
    proof {
        assert(index_texts(index_models(v@)).take(i as int) =~= index_texts(index_models(v@)));
    }
    out
}

/// What walking a program leaves: its statements, what is emitted beside them, and the iterators
/// of its loops, in order.
pub struct Walk {
    pub stmts: StmtsOutcome,
    pub emitted: Emitted,
    pub iterators: Seq<Seq<char>>,
}

/// The C statements of a scheduled program.
pub open spec fn walked(
    env: Env,
    st: Emitted,
    iterators: Seq<Seq<char>>,
    n: NodeModel,
    statements: Seq<StatementModel>,
) -> Walk
    decreases n,
{
    match n {
        NodeModel::Loop { iterator, init, condition, step, body } => {
            let inner = walked(env, st, with_name(iterators, iterator), *body, statements);
            Walk {
                stmts: match inner.stmts {
                    Err(f) => Err(f),
                    Ok(body) => Ok(
                        seq![
                            StmtModel::For {
                                iterator,
                                init: index_text(init, 0),
                                cond: predicate_text(condition),
                                inc: index_text(step, 0),
                                body,
                            },
                        ],
                    ),
                },
                ..inner
            }
        },
        NodeModel::If { condition, then_body, else_body } => {
            let first = walked(env, st, iterators, *then_body, statements);
            match first.stmts {
                Err(f) => first,
                Ok(then_branch) => {
                    let second = match else_body {
                        Some(b) => walked(env, first.emitted, first.iterators, *b, statements),
                        None => Walk { stmts: Ok(Seq::empty()), ..first },
                    };
                    Walk {
                        stmts: match second.stmts {
                            Err(f) => Err(f),
                            Ok(else_branch) => Ok(
                                seq![
                                    StmtModel::If {
                                        cond: predicate_text(condition),
                                        then_branch,
                                        else_branch,
                                    },
                                ],
                            ),
                        },
                        ..second
                    }
                },
            }
        },
        NodeModel::Sequence(v) => walked_all(env, st, iterators, v, statements),
        NodeModel::Invoke { statement, indices } => if statement >= statements.len() {
            Walk {
                stmts: Err(
                    Failure::Unsupported(
                        "internal error: unknown scheduled statement ID "@ + dec(statement),
                    ),
                ),
                emitted: st,
                iterators,
            }
        } else {
            let (r, s1) = instance(env, st, statements[statement as int], index_texts(indices));
            Walk {
                stmts: match r {
                    Err(f) => Err(f),
                    Ok(body) => Ok(seq![StmtModel::Block(body)]),
                },
                emitted: s1,
                iterators,
            }
        },
    }
}

/// The C statements of programs run one after another.
pub open spec fn walked_all(
    env: Env,
    st: Emitted,
    iterators: Seq<Seq<char>>,
    v: Seq<NodeModel>,
    statements: Seq<StatementModel>,
) -> Walk
    decreases v,
{
    if v.len() == 0 {
        Walk { stmts: Ok(Seq::empty()), emitted: st, iterators }
    } else {
        let before = walked_all(env, st, iterators, v.drop_last(), statements);
        match before.stmts {
            Err(f) => before,
            Ok(stmts) => {
                let last = walked(env, before.emitted, before.iterators, v.last(), statements);
                match last.stmts {
                    Err(f) => last,
                    Ok(more) => Walk { stmts: Ok(stmts + more), ..last },
                }
            },
        }
    }
}

proof fn lemma_walk_stops(
    env: Env,
    st: Emitted,
    iterators: Seq<Seq<char>>,
    v: Seq<NodeModel>,
    statements: Seq<StatementModel>,
    n: int,
)
    requires
        0 <= n <= v.len(),
        walked_all(env, st, iterators, v.take(n), statements).stmts is Err,
    ensures
        walked_all(env, st, iterators, v, statements) == walked_all(
            env,
            st,
            iterators,
            v.take(n),
            statements,
        ),
    decreases v.len() - n,
{
    if n < v.len() {
        assert(v.take(n + 1).drop_last() =~= v.take(n));
        lemma_walk_stops(env, st, iterators, v, statements, n + 1);
    } else {
        assert(v.take(n) =~= v);
    }
}

/// Every statement fits its storage.
pub open spec fn cells_fit(env: Env, statements: Seq<StatementModel>) -> bool {
    forall|i: int| 0 <= i < statements.len() ==> cell_fits(env, #[trigger] statements[i])
}

/// The C statements of a scheduled program; its loop iterators are added to `loop_iterators`.
pub fn walk_node(
    g: &mut Gen,
    node: &ScheduledNode,
    statements: &Vec<Statement>,
    loop_iterators: &mut Vec<String>,
) -> (r: Result<Vec<Stmt>>)
    requires
        all_statements_wf(statements_model(statements@)),
        cells_fit(old(g).env(), statements_model(statements@)),
    ensures
        final(g).env() == old(g).env(),
        (Walk {
            stmts: stmts_outcome(r),
            emitted: final(g).emitted(),
            iterators: views(final(loop_iterators)@),
        }) == walked(
            old(g).env(),
            old(g).emitted(),
            views(old(loop_iterators)@),
            node@,
            statements_model(statements@),
        ),
    decreases node, 0int,
{
    match node {
        ScheduledNode::Loop { iterator, init, condition, step, body } => {
            insert_name(loop_iterators, iterator.0.as_str());
            let body = match walk_node(g, body, statements, loop_iterators) {
                Ok(b) => b,
                Err(e) => return Err(e),
            };
            Ok(
                one_stmt(
                    Stmt::For {
                        iterator: iterator.0.clone(),
                        init: render_index(init),
                        cond: render_predicate(condition),
                        inc: render_index(step),
                        body,
                    },
                ),
            )
        },
        ScheduledNode::If { condition, then_body, else_body } => {
            let then_branch = match walk_node(g, then_body, statements, loop_iterators) {
                Ok(b) => b,
                Err(e) => return Err(e),
            };
            let else_branch = match else_body {
                Some(b) => match walk_node(g, b, statements, loop_iterators) {
                    Ok(b) => b,
                    Err(e) => return Err(e),
                },
                None => {
                    let none: Vec<Stmt> = Vec::new();
                    proof {
                        assert(stmts_model(none@) =~= Seq::empty());
                    }
                    none
                },
            };
            Ok(
                one_stmt(
                    Stmt::If { cond: raw(render_predicate(condition)), then_branch, else_branch },
                ),
            )
        },
        ScheduledNode::Sequence(nodes) => walk_nodes(g, nodes, statements, loop_iterators),
        ScheduledNode::Invoke { statement, indices } => {
            if statement.0 >= statements.len() {
                return Err(
                    CodegenError::Unsupported(
                        cat2(
                            "internal error: unknown scheduled statement ID ",
                            dec_usize(statement.0).as_str(),
                        ),
                    ),
                );
            }
            let idx = render_indices(indices);
            proof {
                assert(statements_model(statements@)[statement.0 as int]
                    == statements@[statement.0 as int]@);
            }
            match gen_statement_body(g, &statements[statement.0], &idx) {
                Ok(body) => Ok(one_stmt(Stmt::Block(body))),
                Err(e) => Err(e),
            }
        },
    }
}

fn walk_nodes(
    g: &mut Gen,
    nodes: &Vec<ScheduledNode>,
    statements: &Vec<Statement>,
    loop_iterators: &mut Vec<String>,
) -> (r: Result<Vec<Stmt>>)
    requires
        all_statements_wf(statements_model(statements@)),
        cells_fit(old(g).env(), statements_model(statements@)),
    ensures
        final(g).env() == old(g).env(),
        (Walk {
            stmts: stmts_outcome(r),
            emitted: final(g).emitted(),
            iterators: views(final(loop_iterators)@),
        }) == walked_all(
            old(g).env(),
            old(g).emitted(),
            views(old(loop_iterators)@),
            crate::scheduled_ir::node_models(nodes@),
            statements_model(statements@),
        ),
    decreases nodes, 0int,
{
    let ghost all = crate::scheduled_ir::node_models(nodes@);
    let ghost model = statements_model(statements@);
    let mut out: Vec<Stmt> = Vec::new();
    let mut i: usize = 0;
    proof {
        assert(all.take(0) =~= Seq::empty());
        assert(stmts_model(out@) =~= Seq::empty());
    }
    while i < nodes.len()
        invariant
            i <= nodes.len(),
            all == crate::scheduled_ir::node_models(nodes@),
            model == statements_model(statements@),
            all_statements_wf(model),
            cells_fit(old(g).env(), model),
            g.env() == old(g).env(),
            (Walk {
                stmts: Ok::<Seq<StmtModel>, Failure>(stmts_model(out@)),
                emitted: g.emitted(),
                iterators: views(loop_iterators@),
            }) == walked_all(
                old(g).env(),
                old(g).emitted(),
                views(old(loop_iterators)@),
                all.take(i as int),
                model,
            ),
        decreases nodes.len() - i,
    {
        proof {
            assert(all.take(i + 1).drop_last() =~= all.take(i as int));
            assert(all.take(i + 1).last() == nodes@[i as int]@);
        }
        match walk_node(g, &nodes[i], statements, loop_iterators) {
            Ok(more) => append_stmts(&mut out, more),
            Err(e) => {
                proof {
                    lemma_walk_stops(
                        old(g).env(),
                        old(g).emitted(),
                        views(old(loop_iterators)@),
                        all,
                        model,
                        i + 1,
                    );
                }
                return Err(e);
            },
        }
        i += 1;
    }
    proof {
        assert(all.take(i as int) =~= all);
    }
    Ok(out)
}

/// The body of the entry point.
pub open spec fn driver_body(
    params: Seq<Seq<char>>,
    system: System,
    locals: Seq<StmtModel>,
    body: Seq<StmtModel>,
) -> Seq<StmtModel> {
    copies(params) + copies(var_names(system.inputs@)) + copies(var_names(system.outputs@)) + seq![
        StmtModel::Raw(""@),
        StmtModel::Raw("// Allocate memory for local storage."@),
    ] + locals + seq![
        StmtModel::Raw(""@),
        StmtModel::Raw("// Evaluate every statement, in schedule order."@),
    ] + body + seq![StmtModel::Raw(""@), StmtModel::Raw("// Free all allocated memory."@)] + raw_stmts(
        wrapped("free("@, var_names(system.locals@), ");"@),
    )
}

/// The entry point of a scheduled program.
pub open spec fn driver(params: Seq<Seq<char>>, system: System, body: Seq<StmtModel>) -> core::result::Result<
    FunctionModel,
    Failure,
> {
    match local_allocs(system.locals@) {
        Err(f) => Err(f),
        Ok(locals) => Ok(
            FunctionModel {
                return_type: CType::Void,
                name: system.name@,
                params: entry_params(params, system.inputs@, system.outputs@),
                body: driver_body(params, system, locals, body),
                is_static: false,
            },
        ),
    }
}

pub fn build_driver(param_names: &Vec<String>, system: &System, body_stmts: Vec<Stmt>) -> (r: Result<
    Function,
>)
    requires
        system.wf(),
    ensures
        function_outcome(r) == driver(views(param_names@), *system, stmts_model(body_stmts@)),
{
    let locals = match local_alloc_stmts(&system.locals) {
        Ok(v) => v,
        Err(e) => return Err(e),
    };
    let ghost target = driver_body(
        views(param_names@),
        *system,
        stmts_model(locals@),
        stmts_model(body_stmts@),
    );
    let mut body: Vec<Stmt> = Vec::new();
    proof {
        assert(stmts_model(body@) =~= Seq::empty());
    }
    push_param_copies(&mut body, param_names);
    push_var_copies(&mut body, &system.inputs);
    push_var_copies(&mut body, &system.outputs);
    push_stmt(&mut body, raw_line(""));
    push_stmt(&mut body, raw_line("// Allocate memory for local storage."));
    append_stmts(&mut body, locals);
    push_stmt(&mut body, raw_line(""));
    push_stmt(&mut body, raw_line("// Evaluate every statement, in schedule order."));
    append_stmts(&mut body, body_stmts);
    push_stmt(&mut body, raw_line(""));
    push_stmt(&mut body, raw_line("// Free all allocated memory."));
    push_raw_lines(&mut body, &wrap_names("free(", &system.locals, ");"));
    proof {
        assert(stmts_model(body@) =~= target);
    }
    Ok(
        Function {
            return_type: CType::Void,
            name: system.name.clone(),
            params: entry_params_list(param_names, &system.inputs, &system.outputs),
            body,
            is_static: false,
        },
    )
}

/// The declarations of the global variables and the access macros.
pub open spec fn storage_lines(system: System, params: Seq<Seq<char>>) -> Seq<Seq<char>> {
    seq!["// Global Variables"@] + wrapped("static long "@, params, ";"@) + interface_decls(
        system.inputs@,
    ) + interface_decls(system.outputs@) + flat_decls("float"@, ""@, system.locals@) + seq![
        ""@,
        "// Memory Macros"@,
    ] + interface_macros(system.inputs@) + interface_macros(system.outputs@) + flat_macros(
        ""@,
        system.locals@,
    ) + seq![""@]
}

fn push_storage(out: &mut Vec<String>, system: &System, param_names: &Vec<String>)
    ensures
        views(final(out)@) == views(old(out)@) + storage_lines(*system, views(param_names@)),
{
    let ghost start = views(out@);
    line(out, "// Global Variables");
    extend_lines(out, wrap_texts("static long ", param_names, ";"));
    extend_lines(out, interface_decl_lines(&system.inputs));
    extend_lines(out, interface_decl_lines(&system.outputs));
    push_flat_decls(out, "float", "", &system.locals);
    line(out, "");
    line(out, "// Memory Macros");
    extend_lines(out, interface_macro_lines(&system.inputs));
    extend_lines(out, interface_macro_lines(&system.outputs));
    extend_lines(out, flat_macro_lines("", &system.locals));
    line(out, "");
    proof {
        assert(views(out@) =~= start + storage_lines(*system, views(param_names@)));
    }
}

/// The entry point, and the lines that undefine every macro.
pub open spec fn closing_lines(system: System, driver: FunctionModel) -> Seq<Seq<char>> {
    seq![
        "// Function Declarations"@,
        driver.header() + ";"@,
        ""@,
        driver.definition(),
        ""@,
        "// Undefine the Memory and Function Macros"@,
    ] + wrapped("#undef "@, var_names(system.inputs@), ""@) + wrapped(
        "#undef "@,
        var_names(system.outputs@),
        ""@,
    ) + wrapped("#undef "@, var_names(system.locals@), ""@) + undefined_macros()
}

fn push_closing(out: &mut Vec<String>, system: &System, driver: &Function)
    ensures
        views(final(out)@) == views(old(out)@) + closing_lines(*system, driver@),
{
    let ghost start = views(out@);
    line(out, "// Function Declarations");
    push_text(out, cat2(driver.signature().as_str(), ";"));
    line(out, "");
    push_text(out, driver.to_text());
    line(out, "");
    line(out, "// Undefine the Memory and Function Macros");
    extend_lines(out, wrap_names("#undef ", &system.inputs, ""));
    extend_lines(out, wrap_names("#undef ", &system.outputs, ""));
    extend_lines(out, wrap_names("#undef ", &system.locals, ""));
    push_undefined_macros(out);
    proof {
        assert(views(out@) =~= start + closing_lines(*system, driver@));
    }
}

/// The lines of a whole program.
pub open spec fn program_lines(
    system: System,
    params: Seq<Seq<char>>,
    externals: Seq<Seq<char>>,
    driver: FunctionModel,
) -> Seq<Seq<char>> {
    seq![
        "// This code was auto-generated by alphac (alpha-rs)."@,
        "// ScheduledC backend — a user-supplied target mapping controls loop order."@,
        ""@,
    ] + preamble() + external_decls(externals) + storage_lines(system, params) + closing_lines(
        system,
        driver,
    )
}

/// The text of a whole program around the statements of its entry point.
pub fn render_program(system: &System, g: &Gen, body_stmts: Vec<Stmt>) -> (r: Result<String>)
    requires
        system.wf(),
    ensures
        text_outcome(r) == match driver(g.env().params, *system, stmts_model(body_stmts@)) {
            Err(f) => Err::<Seq<char>, Failure>(f),
            Ok(d) => Ok(
                lines_text(program_lines(*system, g.env().params, g.emitted().externals, d)),
            ),
        },
{
    let driver = match build_driver(&g.param_names, system, body_stmts) {
        Ok(d) => d,
        Err(e) => return Err(e),
    };
    let mut out: Vec<String> = Vec::new();
    line(&mut out, "// This code was auto-generated by alphac (alpha-rs).");
    line(&mut out, "// ScheduledC backend — a user-supplied target mapping controls loop order.");
    line(&mut out, "");
    push_preamble(&mut out);
    push_external_decls(&mut out, &g.externals);
    push_storage(&mut out, system, &g.param_names);
    push_closing(&mut out, system, &driver);
    proof {
        assert(views(out@) =~= program_lines(
            *system,
            g.env().params,
            g.emitted().externals,
            driver@,
        ));
    }
    Ok(print_lines(&out))
}

/// `long name;` for each name.
pub open spec fn iterator_decls(names: Seq<Seq<char>>) -> Seq<StmtModel> {
    Seq::new(names.len(), |i: int| StmtModel::Decl { ty: CType::Long, name: names[i], init: None })
}

fn iterator_decl_stmts(names: &Vec<String>) -> (r: Vec<Stmt>)
    ensures
        stmts_model(r@) == iterator_decls(views(names@)),
{
    let mut out: Vec<Stmt> = Vec::new();
    let mut i: usize = 0;
    while i < names.len()
        invariant
            i <= names.len(),
            stmts_model(out@) =~= iterator_decls(views(names@)).take(i as int),
        decreases names.len() - i,
    {
        push_stmt(&mut out, Stmt::Decl { ty: CType::Long, name: names[i].clone(), init: None });
        i += 1;
    }
    proof {
        assert(iterator_decls(views(names@)).take(i as int) =~= iterator_decls(views(names@)));
    }
    out
}

/// What a scheduled generator knows of a system.
pub open spec fn scheduled_env(system: System) -> Env {
    Env {
        backend: Backend::ScheduledC,
        variables: known_variables(system),
        params: param_list(system.bodies@[0].params@),
    }
}

/// Every reduction of the system has storage of no more dimensions than its body.
pub open spec fn reductions_fit(system: System) -> bool {
    system.bodies@.len() > 0 ==> (system_statements(system) matches Ok(v) ==> cells_fit(
        scheduled_env(system),
        v,
    ))
}

/// The scheduled program of a system whose statements run in the order of a schedule.
pub open spec fn program(system: System, text: Seq<char>, s: Scheduling) -> Outcome {
    if has_use(system.bodies@) {
        refused(
            "UseEquation has no codegen backend — matches WriteC, which doesn't support subsystem calls either"@,
        )
    } else {
        match built(system, text, s) {
            Err(f) => Err(f),
            Ok(p) => {
                let env = scheduled_env(system);
                let w = walked(env, nothing(), Seq::empty(), p.root, p.statements);
                match w.stmts {
                    Err(f) => Err(f),
                    Ok(stmts) => match driver(
                        env.params,
                        system,
                        iterator_decls(w.iterators) + stmts,
                    ) {
                        Err(f) => Err(f),
                        Ok(d) => Ok(
                            lines_text(
                                program_lines(system, env.params, w.emitted.externals, d),
                            ),
                        ),
                    },
                }
            },
        }
    }
}

/// Whether every reduction's storage has no more dimensions than its body.
pub fn check_reductions_fit(system: &System) -> (r: bool)
    requires
        system.wf(),
    ensures
        r == reductions_fit(*system),
{
    if system.bodies.len() == 0 {
        return true;
    }
    let all = match statements(system) {
        Ok(v) => v,
        Err(_) => return true,
    };
    let g = new_gen(system);
    let ghost model = statements_model(all@);
    let mut i: usize = 0;
    while i < all.len()
        invariant
            i <= all.len(),
            model == statements_model(all@),
            system.bodies@.len() > 0,
            system_statements(*system) == Ok::<Seq<StatementModel>, Failure>(model),
            g.env() == scheduled_env(*system),
            forall|k: int| 0 <= k < i ==> cell_fits(g.env(), #[trigger] model[k]),
        decreases all.len() - i,
    {
        if let StatementKind::ReduceStep { reduce_local, .. } = &all[i].kind {
            let ambient: u32 = match g.variable(reduce_local.as_str()) {
                Some(info) => info.ndims,
                None => all[i].ndims,
            };
            if ambient > all[i].ndims {
                proof {
                    assert(!cell_fits(g.env(), model[i as int]));
                }
                return false;
            }
        }
        proof {
            assert(model[i as int] == all@[i as int]@);
        }
        i += 1;
    }
    true
}

fn new_gen(system: &System) -> (g: Gen)
    requires
        system.bodies@.len() > 0,
    ensures
        g.env() == scheduled_env(*system),
        g.emitted() == nothing(),
{
    let g = Gen {
        backend: Backend::ScheduledC,
        variables: variable_table(system),
        param_names: param_names_of(&system.bodies[0].params),
        reduce_fns: Vec::new(),
        externals: Vec::new(),
    };
    proof {
        assert(g.emitted().reduce_fns =~= nothing().reduce_fns);
        assert(g.emitted().externals =~= nothing().externals);
    }
    g
}

/// Checks that a system and a schedule of its statements make a scheduled program.
pub fn validate_scheduled_system(system: &System, text: &str, s: &Scheduling) -> (r: Result<()>)
    requires
        system.wf(),
        s.answers_for(*system, text@),
    ensures
        if has_use(system.bodies@) {
            r matches Err(e) && Err::<Seq<char>, Failure>(e@) == program(*system, text@, *s)
        } else {
            match built(*system, text@, *s) {
                Err(f) => r matches Err(e) && e@ == f,
                Ok(_) => r is Ok,
            }
        },
{
    match check_no_use_equations(system) {
        Ok(()) => {},
        Err(e) => return Err(e),
    }
    match build(system, text, s) {
        Ok(_) => Ok(()),
        Err(e) => Err(e),
    }
}

pub fn check_no_use_equations(system: &System) -> (r: Result<()>)
    ensures
        r is Err <==> has_use(system.bodies@),
        r matches Err(e) ==> e@ == Failure::Unsupported(
            "UseEquation has no codegen backend — matches WriteC, which doesn't support subsystem calls either"@,
        ),
{
    if contains_use(&system.bodies) {
        return Err(
            unsupported(
                "UseEquation has no codegen backend — matches WriteC, which doesn't support subsystem calls either",
            ),
        );
    }
    Ok(())
}

/// Generates the scheduled program of a system: one self-contained source file.
pub fn generate_scheduled_system(system: &System, text: &str, s: &Scheduling) -> (r: Result<String>)
    requires
        system.wf(),
        reductions_fit(*system),
        s.answers_for(*system, text@),
    ensures
        text_outcome(r) == program(*system, text@, *s),
{
    match check_no_use_equations(system) {
        Ok(()) => {},
        Err(e) => return Err(e),
    }
    let p = match build(system, text, s) {
        Ok(p) => p,
        Err(e) => return Err(e),
    };
    let mut g = new_gen(system);
    let mut loop_iterators: Vec<String> = Vec::new();
    proof {
        assert(views(loop_iterators@) =~= Seq::empty());
    }
    let stmts = match walk_node(&mut g, &p.root, &p.statements, &mut loop_iterators) {
        Ok(v) => v,
        Err(e) => return Err(e),
    };
    let mut body = iterator_decl_stmts(&loop_iterators);
    append_stmts(&mut body, stmts);
    render_program(system, &g, body)
}

/// The entry point gives back the storage that it gets for every local.
pub proof fn the_entry_point_frees_what_it_allocates(
    params: Seq<Seq<char>>,
    system: System,
    body: Seq<StmtModel>,
)
    ensures
        driver(params, system, body) matches Ok(f) ==> forall|k: int|
            0 <= k < system.locals@.len() ==> {
                let v = #[trigger] system.locals@[k];
                got_and_given_back(f.body, v.name@, v.domain.ndims, "float"@)
            },
{
    if let Ok(f) = driver(params, system, body) {
        let locals = local_allocs(system.locals@)->Ok_0;
        let locs = var_names(system.locals@);
        let first = copies(params) + copies(var_names(system.inputs@)) + copies(
            var_names(system.outputs@),
        ) + seq![
            StmtModel::Raw(""@),
            StmtModel::Raw("// Allocate memory for local storage."@),
        ];
        let second = seq![
            StmtModel::Raw(""@),
            StmtModel::Raw("// Evaluate every statement, in schedule order."@),
        ];
        let third = seq![StmtModel::Raw(""@), StmtModel::Raw("// Free all allocated memory."@)];
        let head = first + locals + second + body + third;
        let tail = raw_stmts(wrapped("free("@, locs, ");"@));
        assert(f.body =~= head + tail);
        assert("free("@ + Seq::<char>::empty() =~= "free("@);
        assert forall|k: int| 0 <= k < system.locals@.len() implies {
            let v = #[trigger] system.locals@[k];
            got_and_given_back(f.body, v.name@, v.domain.ndims, "float"@)
        } by {
            let v = system.locals@[k];
            assert(locs[k] == v.name@);
            let got = malloc_stmt(v.name@, v.domain.ndims, "float"@);
            lemma_allocated(system.locals@, k);
            lemma_within(first, locals, got);
            lemma_within(first + locals, second, got);
            lemma_within(first + locals + second, body, got);
            lemma_within(first + locals + second + body, third, got);
            lemma_freed(Seq::empty(), locs, k);
            assert(Seq::<char>::empty() + v.name@ =~= v.name@);
            lemma_in_order(head, tail, v.name@, v.domain.ndims, "float"@);
        }
    }
}

/// `name` steps some loop of the program.
pub open spec fn steps(n: NodeModel, name: Seq<char>) -> bool
    decreases n,
{
    match n {
        NodeModel::Loop { iterator, init, condition, step, body } => iterator == name || steps(
            *body,
            name,
        ),
        NodeModel::If { condition, then_body, else_body } => steps(*then_body, name) || (
        else_body matches Some(b) && steps(*b, name)),
        NodeModel::Sequence(v) => exists|i: int| 0 <= i < v.len() && steps(#[trigger] v[i], name),
        NodeModel::Invoke { .. } => false,
    }
}

/// Every loop of a scheduled program steps an iterator that the program declares.
pub proof fn every_loop_iterator_is_declared(
    env: Env,
    st: Emitted,
    iterators: Seq<Seq<char>>,
    n: NodeModel,
    statements: Seq<StatementModel>,
    name: Seq<char>,
)
    requires
        walked(env, st, iterators, n, statements).stmts is Ok,
        steps(n, name) || iterators.contains(name),
    ensures
        walked(env, st, iterators, n, statements).iterators.contains(name),
    decreases n,
{
    match n {
        NodeModel::Loop { iterator, init, condition, step, body } => {
            lemma_with_name(iterators, iterator);
            every_loop_iterator_is_declared(
                env,
                st,
                with_name(iterators, iterator),
                *body,
                statements,
                name,
            );
        },
        NodeModel::If { condition, then_body, else_body } => {
            let first = walked(env, st, iterators, *then_body, statements);
            if steps(*then_body, name) || iterators.contains(name) {
                every_loop_iterator_is_declared(env, st, iterators, *then_body, statements, name);
            }
            match else_body {
                Some(b) => {
                    every_loop_iterator_is_declared(
                        env,
                        first.emitted,
                        first.iterators,
                        *b,
                        statements,
                        name,
                    );
                },
                None => {},
            }
        },
        NodeModel::Sequence(v) => lemma_all_declared(env, st, iterators, v, statements, name),
        NodeModel::Invoke { .. } => {},
    }
}

proof fn lemma_all_declared(
    env: Env,
    st: Emitted,
    iterators: Seq<Seq<char>>,
    v: Seq<NodeModel>,
    statements: Seq<StatementModel>,
    name: Seq<char>,
)
    requires
        walked_all(env, st, iterators, v, statements).stmts is Ok,
        iterators.contains(name) || exists|i: int|
            0 <= i < v.len() && steps(#[trigger] v[i], name),
    ensures
        walked_all(env, st, iterators, v, statements).iterators.contains(name),
    decreases v,
{
    if v.len() > 0 {
        let before = walked_all(env, st, iterators, v.drop_last(), statements);
        if !iterators.contains(name) {
            let i = choose|i: int| 0 <= i < v.len() && steps(#[trigger] v[i], name);
            if i < v.len() - 1 {
                assert(steps(v.drop_last()[i], name));
                lemma_all_declared(env, st, iterators, v.drop_last(), statements, name);
            }
        } else {
            lemma_all_declared(env, st, iterators, v.drop_last(), statements, name);
        }
        every_loop_iterator_is_declared(
            env,
            before.emitted,
            before.iterators,
            v.last(),
            statements,
            name,
        );
    }
}

/// The entry point ends by giving back the storage of the locals, each once where the names differ,
/// and nothing else: the arrays of its interface stay with the caller.
pub proof fn the_entry_point_frees_each_allocation_once(
    params: Seq<Seq<char>>,
    system: System,
    body: Seq<StmtModel>,
    name: Seq<char>,
)
    ensures
        driver(params, system, body) matches Ok(f) ==> {
            let names = var_names(system.locals@);
            let ends = f.body.len() - names.len();
            &&& ends >= 0
            &&& f.body.skip(ends) == freed(names)
            &&& names.no_duplicates() ==> {
                &&& freed(names).contains(free_stmt(name)) <==> names.contains(name)
                &&& forall|i: int, j: int|
                    0 <= i < names.len() && 0 <= j < names.len() && #[trigger] freed(names)[i]
                        == free_stmt(name) && #[trigger] freed(names)[j] == free_stmt(name) ==> i
                        == j
            }
        },
{
    if let Ok(f) = driver(params, system, body) {
        let names = var_names(system.locals@);
        lemma_freed_all(Seq::empty(), names);
        assert("free("@ + Seq::<char>::empty() =~= "free("@);
        assert(names.map_values(|n: Seq<char>| Seq::<char>::empty() + n) =~= names) by {
            assert forall|k: int| 0 <= k < names.len() implies Seq::<char>::empty() + (
            #[trigger] names[k]) == names[k] by {
                assert(Seq::<char>::empty() + names[k] =~= names[k]);
            }
        }
        let ends = f.body.len() - names.len();
        assert(f.body.skip(ends) =~= freed(names));
        if names.no_duplicates() {
            names_are_freed_once(names, name);
        }
    }
}

} // verus!
