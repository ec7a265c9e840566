//! Demand-driven C: every computed variable gets a memoizing evaluation function, guarded by a flag
//! per point, and the entry point evaluates every point of every output.
use crate::driver::{
    copies, entry_params, entry_params_list, extend_lines, external_decls, flat_alloc,
    flat_alloc_stmts, flat_decls, flat_macro_lines, flat_macros, free_stmt, got_and_given_back,
    interface_decl_lines, interface_decls, interface_macro_lines, interface_macros, lemma_allocated,
    freed, lemma_freed, lemma_freed_all, names_are_freed_once, lemma_in_order, lemma_within, line, lines_text, local_alloc_stmts, local_allocs,
    malloc_stmt, preamble, print_lines, push_external_decls, push_flat_decls, push_param_copies,
    push_preamble, push_raw_lines, push_undefined_macros, push_var_copies, raw_stmts, stmts_outcome,
    undefined_macros, var_names, wrap_names, wrap_texts, wrapped, StmtsOutcome,
};
use crate::error::{unsupported, CodegenError, Failure, Result};
use crate::expr::{
    bound_failure, copy_names, entries, functions_model, gen_piecewise, gen_value, isl_bound_err, outcome,
    param_list, param_names_of, pick_names, pick_names_prefixed, picked, piecewise_value, refused,
    value, Backend, Emitted, Env, Gen, Outcome, Role, VarInfo,
};
use crate::ir::{
    all_equations_wf, all_wf, contains_use, equations_of, expr_wf, find_equations, has_use, referred, Expr, LoopHeader,
    LoopTemplate, Operator, ReduceDomain, StandardEquation, System, SystemBody, Variable,
};
use crate::layout::{arith_text, extent, flat_total_size_expr, macro_params};
use crate::simplec::{
    append_stmts, assign, exprs_text, one_stmt, params_model, push_expr, push_param, push_stmt, raw,
    raw_line, stmts_model, CType, Function, FunctionModel, Stmt, StmtModel, Expr as CExpr,
};
use crate::text::{
    cat2, cat3, cat4, cat5, dec, dec_u32, dec_usize, join, joined, push_text, str_eq, views, with_name,
};
use vstd::prelude::*;

verus! {

/// The value a reduction starts from; absent where the operator is unknown.
pub open spec fn neutral(operator: Operator) -> Option<Seq<char>> {
    match operator {
        Operator::External(_) => Some("0.0f"@),
        Operator::Named(op) => if op@ == "+"@ || op@ == "sum"@ || op@ == "or"@ {
            Some("0.0f"@)
        } else if op@ == "*"@ || op@ == "prod"@ || op@ == "and"@ {
            Some("1.0f"@)
        } else if op@ == "min"@ {
            Some("INFINITY"@)
        } else if op@ == "max"@ {
            Some("-INFINITY"@)
        } else {
            None
        },
    }
}

/// The new value of the accumulator `cell` after `value`; absent where the operator is unknown.
pub open spec fn combined(operator: Operator, cell: Seq<char>, value: Seq<char>) -> Option<Seq<char>> {
    match operator {
        Operator::External(name) => Some(name@ + "("@ + cell + ", "@ + value + ")"@),
        Operator::Named(op) => if op@ == "+"@ || op@ == "sum"@ {
            Some("("@ + cell + ") + ("@ + value + ")"@)
        } else if op@ == "*"@ || op@ == "prod"@ {
            Some("("@ + cell + ") * ("@ + value + ")"@)
        } else if op@ == "min"@ || op@ == "max"@ {
            Some(op@ + "("@ + cell + ", "@ + value + ")"@)
        } else if op@ == "and"@ {
            Some("(("@ + cell + ") != 0) && (("@ + value + ") != 0)"@)
        } else if op@ == "or"@ {
            Some("(("@ + cell + ") != 0) || (("@ + value + ") != 0)"@)
        } else {
            None
        },
    }
}

/// An operator has a neutral element exactly where it has a way to combine.
pub proof fn neutral_iff_combined(operator: Operator, cell: Seq<char>, value: Seq<char>)
    ensures
        neutral(operator) is Some <==> combined(operator, cell, value) is Some,
{
}

/// A reduction over an operator that is not known.
pub open spec fn unknown_reduce(operator: Operator) -> Outcome {
    match operator {
        Operator::Named(op) => refused("unknown reduce operator '"@ + op@ + "'"@),
        Operator::External(name) => refused("unknown reduce operator '"@ + name@ + "'"@),
    }
}

fn unknown_reduce_error(operator: &Operator) -> (r: CodegenError)
    ensures
        Err::<Seq<char>, Failure>(r@) == unknown_reduce(*operator),
{
    let name = match operator {
        Operator::Named(op) => op,
        Operator::External(name) => name,
    };
    CodegenError::Unsupported(cat3("unknown reduce operator '", name.as_str(), "'"))
}

pub fn neutral_element(operator: &Operator) -> (r: Result<CExpr>)
    ensures
        outcome(r) == match neutral(*operator) {
            Some(t) => Ok::<Seq<char>, Failure>(t),
            None => unknown_reduce(*operator),
        },
{
    let text = match operator {
        Operator::External(_) => "0.0f",
        Operator::Named(op) => {
            let op = op.as_str();
            if str_eq(op, "+") || str_eq(op, "sum") || str_eq(op, "or") {
                "0.0f"
            } else if str_eq(op, "*") || str_eq(op, "prod") || str_eq(op, "and") {
                "1.0f"
            } else if str_eq(op, "min") {
                "INFINITY"
            } else if str_eq(op, "max") {
                "-INFINITY"
            } else {
                return Err(unknown_reduce_error(operator));
            }
        },
    };
    Ok(raw(text.to_owned()))
}

/// The text that folds `value` into the accumulator `cell`.
pub fn accumulate(operator: &Operator, cell: &str, value: &str) -> (r: Option<String>)
    ensures
        match r {
            Some(t) => combined(*operator, cell@, value@) == Some(t@),
            None => combined(*operator, cell@, value@) is None,
        },
{
    match operator {
        Operator::External(name) => {
            let mut s = cat5(name.as_str(), "(", cell, ", ", value);
            s.append(")");
            Some(s)
        },
        Operator::Named(op) => {
            let op = op.as_str();
            if str_eq(op, "+") || str_eq(op, "sum") {
                Some(cat5("(", cell, ") + (", value, ")"))
            } else if str_eq(op, "*") || str_eq(op, "prod") {
                Some(cat5("(", cell, ") * (", value, ")"))
            } else if str_eq(op, "min") || str_eq(op, "max") {
                let mut s = cat5(op, "(", cell, ", ", value);
                s.append(")");
                Some(s)
            } else if str_eq(op, "and") {
                Some(cat5("((", cell, ") != 0) && ((", value, ") != 0)"))
            } else if str_eq(op, "or") {
                Some(cat5("((", cell, ") != 0) || ((", value, ") != 0)"))
            } else {
                None
            }
        },
    }
}

/// The header of a loop, as C texts.
pub struct Header {
    pub iterator: Seq<char>,
    pub init: Seq<char>,
    pub cond: Seq<char>,
    pub inc: Seq<char>,
}

/// `inner` inside the loops, the first header outermost.
pub open spec fn nested(headers: Seq<Header>, inner: Seq<StmtModel>) -> Seq<StmtModel>
    decreases headers.len(),
{
    if headers.len() == 0 {
        inner
    } else {
        let h = headers.last();
        nested(
            headers.drop_last(),
            seq![
                StmtModel::For {
                    iterator: h.iterator,
                    init: h.init,
                    cond: h.cond,
                    inc: h.inc,
                    body: inner,
                },
            ],
        )
    }
}

/// The loop headers of a reduction over the tuple `all`.
pub open spec fn reduce_headers(nest: Seq<LoopTemplate>, all: Seq<Seq<char>>) -> Seq<Header> {
    Seq::new(
        nest.len(),
        |i: int|
            Header {
                iterator: all[nest[i].dim as int],
                init: nest[i].init.filled(all),
                cond: nest[i].cond.filled(all),
                inc: nest[i].inc.filled(all),
            },
    )
}

/// Some loop steps an index called `name`.
pub open spec fn steps(headers: Seq<Header>, name: Seq<char>) -> bool {
    exists|i: int| 0 <= i < headers.len() && (#[trigger] headers[i]).iterator == name
}

/// The fixed value of each of the first `n` new indices that no loop steps, or the first failure
/// to find one.
pub open spec fn fixed_values(
    d: ReduceDomain,
    headers: Seq<Header>,
    primed: Seq<Seq<char>>,
    new_names: Seq<Seq<char>>,
    n: nat,
) -> core::result::Result<Seq<(Seq<char>, Seq<char>)>, Failure>
    decreases n,
{
    if n == 0 {
        Ok(Seq::empty())
    } else {
        match fixed_values(d, headers, primed, new_names, (n - 1) as nat) {
            Err(f) => Err(f),
            Ok(found) => {
                let name = new_names[n - 1];
                if steps(headers, name) {
                    Ok(found)
                } else {
                    match d.maxima@[primed.len() + n - 1] {
                        Ok(t) => Ok(found.push((name, t.filled(primed + new_names)))),
                        Err(e) => Err(
                            bound_failure(
                                "resolving reduce index '"@ + name + "'"@,
                                e.message@,
                            ),
                        ),
                    }
                }
            },
        }
    }
}

/// The fixed value of an index; the latest entry under its name counts.
pub open spec fn fixed_value(found: Seq<(Seq<char>, Seq<char>)>, name: Seq<char>) -> Option<Seq<char>>
    decreases found.len(),
{
    if found.len() == 0 {
        None
    } else if found.last().0 == name {
        Some(found.last().1)
    } else {
        fixed_value(found.drop_last(), name)
    }
}

/// `name` followed by `p`, for each name.
pub open spec fn primed_names(names: Seq<Seq<char>>) -> Seq<Seq<char>> {
    Seq::new(names.len(), |i: int| names[i] + "p"@)
}

pub open spec fn long_params(names: Seq<Seq<char>>) -> Seq<(CType, Seq<char>)> {
    Seq::new(names.len(), |i: int| (CType::Long, names[i]))
}

/// `long name;`, with its value where the index has a fixed one.
pub open spec fn index_decls(names: Seq<Seq<char>>, fixed: Seq<(Seq<char>, Seq<char>)>) -> Seq<
    StmtModel,
> {
    Seq::new(
        names.len(),
        |i: int|
            StmtModel::Decl {
                ty: CType::Long,
                name: names[i],
                init: fixed_value(fixed, names[i]),
            },
    )
}

/// The function that computes a reduction.
pub open spec fn reduce_function(
    name: Seq<char>,
    params: Seq<Seq<char>>,
    primed: Seq<Seq<char>>,
    new_names: Seq<Seq<char>>,
    headers: Seq<Header>,
    fixed: Seq<(Seq<char>, Seq<char>)>,
    start: Seq<char>,
    step: Seq<char>,
) -> FunctionModel {
    FunctionModel {
        return_type: CType::Float,
        name,
        params: long_params(params) + long_params(primed),
        body: seq![
            StmtModel::Decl { ty: CType::Float, name: "reduceVar"@, init: None },
            StmtModel::Raw(""@),
        ] + index_decls(new_names, fixed) + seq![
            StmtModel::Raw(""@),
            StmtModel::Assign { target: "reduceVar"@, value: start },
        ] + nested(headers, seq![StmtModel::Assign { target: "reduceVar"@, value: step }]) + seq![
            StmtModel::Return(Some("reduceVar"@)),
        ],
        is_static: true,
    }
}

/// A reduction: a call of a new function, which loops over the new indices. Inside it the ambient
/// indices are parameters, primed.
pub open spec fn reduce_value(
    env: Env,
    st: Emitted,
    names: Seq<Seq<char>>,
    operator: Operator,
    hint: Seq<Seq<char>>,
    body: Expr,
    domain: Option<ReduceDomain>,
) -> (Outcome, Emitted)
    decreases body, 1int,
{
    match domain {
        None => (
            refused(
                "reduce body missing a context domain — codegen must run after Normalize's context refresh"@,
            ),
            st,
        ),
        Some(d) => if d.total < names.len() {
            (refused("reduce body's domain has fewer dims than the ambient index tuple"@), st)
        } else if d.total == names.len() {
            (refused("reduce with no new index dims"@), st)
        } else {
            match d.nest {
                Err(e) => (
                    Err(
                        bound_failure(
                            "generating this reduce's own summation loop"@,
                            e.message@,
                        ),
                    ),
                    st,
                ),
                Ok(nest) => {
                    let primed = primed_names(names);
                    let new_names = new_index_names(names.len(), hint, d);
                    let headers = reduce_headers(nest@, primed + new_names);
                    match fixed_values(d, headers, primed, new_names, new_names.len()) {
                        Err(f) => (Err(f), st),
                        Ok(fixed) => match value(env, st, primed + new_names, body) {
                            (Err(f), s1) => (Err(f), s1),
                            (Ok(v), s1) => match neutral(operator) {
                                None => (unknown_reduce(operator), s1),
                                Some(start) => reduce_emitted(
                                    env,
                                    s1,
                                    names,
                                    operator,
                                    new_names,
                                    headers,
                                    fixed,
                                    start,
                                    v,
                                ),
                            },
                        },
                    }
                },
            }
        },
    }
}

/// The names of the new indices of a reduction.
pub open spec fn new_index_names(ambient: nat, hint: Seq<Seq<char>>, d: ReduceDomain) -> Seq<Seq<char>> {
    picked(
        if hint.len() == d.total {
            hint.skip(ambient as int)
        } else {
            Seq::empty()
        },
        (d.total - ambient) as nat,
        "k"@,
    )
}

/// The call of a reduction's function, and that function added to what is emitted.
pub open spec fn reduce_emitted(
    env: Env,
    st: Emitted,
    names: Seq<Seq<char>>,
    operator: Operator,
    new_names: Seq<Seq<char>>,
    headers: Seq<Header>,
    fixed: Seq<(Seq<char>, Seq<char>)>,
    start: Seq<char>,
    v: Seq<char>,
) -> (Outcome, Emitted) {
    let fn_name = "reduce"@ + dec(st.reduce_fns.len());
    let step = combined(operator, "reduceVar"@, v)->Some_0;
    let externals = match operator {
        Operator::External(name) => with_name(st.externals, name@),
        Operator::Named(_) => st.externals,
    };
    (
        Ok(fn_name + "("@ + joined(env.params + names, ", "@) + ")"@),
        Emitted {
            reduce_fns: st.reduce_fns.push(
                reduce_function(
                    fn_name,
                    env.params,
                    primed_names(names),
                    new_names,
                    headers,
                    fixed,
                    start,
                    step,
                ),
            ),
            externals,
        },
    )
}

pub open spec fn headers_model(v: Seq<LoopHeader>) -> Seq<Header> {
    Seq::new(
        v.len(),
        |i: int|
            Header {
                iterator: v[i].iterator@,
                init: v[i].init@,
                cond: v[i].cond@,
                inc: v[i].inc@,
            },
    )
}

/// Wraps `inner` in loops, the first header outermost.
pub fn nest_loops(headers: Vec<LoopHeader>, inner: Vec<Stmt>) -> (r: Vec<Stmt>)
    ensures
        stmts_model(r@) == nested(headers_model(headers@), stmts_model(inner@)),
    decreases headers.len(),
{
    let mut headers = headers;
    let ghost all = headers@;
    match headers.pop() {
        None => inner,
        Some(h) => {
            proof {
                assert(headers_model(headers@) =~= headers_model(all).drop_last());
                assert(headers_model(all).last() == (Header {
                    iterator: h.iterator@,
                    init: h.init@,
                    cond: h.cond@,
                    inc: h.inc@,
                }));
            }
            let body = one_stmt(
                Stmt::For {
                    iterator: h.iterator,
                    init: h.init,
                    cond: h.cond,
                    inc: h.inc,
                    body: inner,
                },
            );
            nest_loops(headers, body)
        },
    }
}

fn prime_names(names: &Vec<String>) -> (r: Vec<String>)
    ensures
        views(r@) == primed_names(views(names@)),
{
    let mut out: Vec<String> = Vec::new();
    let mut i: usize = 0;
    while i < names.len()
        invariant
            i <= names.len(),
            views(out@) =~= primed_names(views(names@)).take(i as int),
        decreases names.len() - i,
    {
        push_text(&mut out, cat2(names[i].as_str(), "p"));
        i += 1;
    }
    proof {
        assert(primed_names(views(names@)).take(i as int) =~= primed_names(views(names@)));
    }
    out
}

/// The names of `a` followed by those of `b`.
pub fn concat_names(a: &Vec<String>, b: &Vec<String>) -> (r: Vec<String>)
    ensures
        views(r@) == views(a@) + views(b@),
{
    let mut out = copy_names(a);
    let mut i: usize = 0;
    while i < b.len()
        invariant
            i <= b.len(),
            views(out@) =~= views(a@) + views(b@).take(i as int),
        decreases b.len() - i,
    {
        push_text(&mut out, b[i].clone());
        i += 1;
    }
    proof {
        assert(views(b@).take(i as int) =~= views(b@));
    }
    out
}

/// The names from position `from` on.
pub fn names_from(v: &Vec<String>, from: usize) -> (r: Vec<String>)
    requires
        from <= v.len(),
    ensures
        views(r@) == views(v@).skip(from as int),
{
    let mut out: Vec<String> = Vec::new();
    let mut i: usize = from;
    while i < v.len()
        invariant
            from <= i <= v.len(),
            views(out@) =~= views(v@).subrange(from as int, i as int),
        decreases v.len() - i,
    {
        push_text(&mut out, v[i].clone());
        i += 1;
    }
    proof {
        assert(views(v@).subrange(from as int, i as int) =~= views(v@).skip(from as int));
    }
    out
}

fn fill_headers(nest: &Vec<LoopTemplate>, all: &Vec<String>) -> (r: Vec<LoopHeader>)
    requires
        forall|i: int| 0 <= i < nest@.len() ==> (#[trigger] nest@[i]).dim < all@.len(),
    ensures
        headers_model(r@) == reduce_headers(nest@, views(all@)),
{
    let mut out: Vec<LoopHeader> = Vec::new();
    let mut i: usize = 0;
    while i < nest.len()
        invariant
            i <= nest.len(),
            forall|i: int| 0 <= i < nest@.len() ==> (#[trigger] nest@[i]).dim < all@.len(),
            headers_model(out@) =~= reduce_headers(nest@, views(all@)).take(i as int),
        decreases nest.len() - i,
    {
        let ghost before = headers_model(out@);
        let h = LoopHeader {
            iterator: all[nest[i].dim as usize].clone(),
            init: nest[i].init.fill(all),
            cond: nest[i].cond.fill(all),
            inc: nest[i].inc.fill(all),
        };
        out.push(h);
        proof {
            assert(headers_model(out@) =~= before.push(reduce_headers(nest@, views(all@))[i as int]));
        }
        i += 1;
    }
    proof {
        assert(reduce_headers(nest@, views(all@)).take(i as int) =~= reduce_headers(
            nest@,
            views(all@),
        ));
    }
    out
}

fn has_loop(headers: &Vec<LoopHeader>, name: &str) -> (r: bool)
    ensures
        r == steps(headers_model(headers@), name@),
{
    let mut i: usize = 0;
    while i < headers.len()
        invariant
            i <= headers.len(),
            forall|j: int|
                0 <= j < i ==> (#[trigger] headers_model(headers@)[j]).iterator != name@,
        decreases headers.len() - i,
    {
        if str_eq(headers[i].iterator.as_str(), name) {
            proof {
                assert(headers_model(headers@)[i as int].iterator == name@);
            }
            return true;
        }
        i += 1;
    }
    false
}

pub open spec fn pairs(v: Seq<(String, String)>) -> Seq<(Seq<char>, Seq<char>)> {
    Seq::new(v.len(), |i: int| (v[i].0@, v[i].1@))
}

pub open spec fn pairs_outcome(r: Result<Vec<(String, String)>>) -> core::result::Result<
    Seq<(Seq<char>, Seq<char>)>,
    Failure,
> {
    match r {
        Ok(v) => Ok(pairs(v@)),
        Err(e) => Err(e@),
    }
}

fn find_fixed(
    d: &ReduceDomain,
    headers: &Vec<LoopHeader>,
    primed: &Vec<String>,
    new_names: &Vec<String>,
    all: &Vec<String>,
) -> (r: Result<Vec<(String, String)>>)
    requires
        d.wf(),
        d.total == primed@.len() + new_names@.len(),
        views(all@) == views(primed@) + views(new_names@),
    ensures
        pairs_outcome(r) == fixed_values(
            *d,
            headers_model(headers@),
            views(primed@),
            views(new_names@),
            new_names@.len(),
        ),
{
    let mut out: Vec<(String, String)> = Vec::new();
    let mut i: usize = 0;
    proof {
        assert(pairs(out@) =~= Seq::empty());
    }
    while i < new_names.len()
        invariant
            i <= new_names.len(),
            d.wf(),
            d.total == primed@.len() + new_names@.len(),
            views(all@) == views(primed@) + views(new_names@),
            Ok::<Seq<(Seq<char>, Seq<char>)>, Failure>(pairs(out@)) == fixed_values(
                *d,
                headers_model(headers@),
                views(primed@),
                views(new_names@),
                i as nat,
            ),
        decreases new_names.len() - i,
    {
        let name = new_names[i].as_str();
        if !has_loop(headers, name) {
            match &d.maxima[primed.len() + i] {
                Ok(t) => {
                    let ghost before = pairs(out@);
                    let text = t.fill(all);
                    out.push((new_names[i].clone(), text));
                    proof {
                        assert(pairs(out@) =~= before.push((new_names@[i as int]@, text@)));
                    }
                },
                Err(e) => {
                    let context = cat3("resolving reduce index '", name, "'");
                    let err = isl_bound_err(context.as_str(), e);
                    proof {
                        lemma_fixed_stops(
                            *d,
                            headers_model(headers@),
                            views(primed@),
                            views(new_names@),
                            (i + 1) as nat,
                            new_names@.len(),
                        );
                    }
                    return Err(err);
                },
            }
        }
        i += 1;
    }
    Ok(out)
}

/// A failure among the first indices is the failure of them all.
proof fn lemma_fixed_stops(
    d: ReduceDomain,
    headers: Seq<Header>,
    primed: Seq<Seq<char>>,
    new_names: Seq<Seq<char>>,
    n: nat,
    m: nat,
)
    requires
        n <= m,
        fixed_values(d, headers, primed, new_names, n) is Err,
    ensures
        fixed_values(d, headers, primed, new_names, m) == fixed_values(
            d,
            headers,
            primed,
            new_names,
            n,
        ),
    decreases m,
{
    if n < m {
        lemma_fixed_stops(d, headers, primed, new_names, n, (m - 1) as nat);
    }
}

fn lookup_fixed(found: &Vec<(String, String)>, name: &str) -> (r: Option<CExpr>)
    ensures
        match r {
            Some(e) => fixed_value(pairs(found@), name@) == Some(e@),
            None => fixed_value(pairs(found@), name@) is None,
        },
{
    let mut i: usize = found.len();
    proof {
        assert(pairs(found@).take(i as int) =~= pairs(found@));
    }
    while i > 0
        invariant
            i <= found.len(),
            fixed_value(pairs(found@), name@) == fixed_value(pairs(found@).take(i as int), name@),
        decreases i,
    {
        i -= 1;
        proof {
            assert(pairs(found@).take(i + 1).drop_last() =~= pairs(found@).take(i as int));
            assert(pairs(found@).take(i + 1).last() == pairs(found@)[i as int]);
        }
        if str_eq(found[i].0.as_str(), name) {
            return Some(raw(found[i].1.clone()));
        }
    }
    None
}

fn long_param_list(params: &Vec<String>, primed: &Vec<String>) -> (r: Vec<(CType, String)>)
    ensures
        params_model(r@) == long_params(views(params@)) + long_params(views(primed@)),
{
    let all = concat_names(params, primed);
    let mut out: Vec<(CType, String)> = Vec::new();
    let mut i: usize = 0;
    while i < all.len()
        invariant
            i <= all.len(),
            params_model(out@) =~= long_params(views(all@)).take(i as int),
        decreases all.len() - i,
    {
        push_param(&mut out, CType::Long, all[i].clone());
        i += 1;
    }
    proof {
        assert(params_model(out@) =~= long_params(views(params@)) + long_params(views(primed@)));
    }
    out
}

/// The raw names as call arguments.
pub fn name_args(names: &Vec<String>) -> (r: Vec<CExpr>)
    ensures
        exprs_text(r@) == views(names@),
{
    let mut out: Vec<CExpr> = Vec::new();
    let mut i: usize = 0;
    while i < names.len()
        invariant
            i <= names.len(),
            exprs_text(out@) =~= views(names@).take(i as int),
        decreases names.len() - i,
    {
        push_expr(&mut out, raw(names[i].clone()));
        i += 1;
    }
    proof {
        assert(views(names@).take(i as int) =~= views(names@));
    }
    out
}

fn reduce_body(
    new_names: &Vec<String>,
    headers: Vec<LoopHeader>,
    fixed: &Vec<(String, String)>,
    start: CExpr,
    step: String,
) -> (r: Vec<Stmt>)
    ensures
        stmts_model(r@) == reduce_function(
            Seq::empty(),
            Seq::empty(),
            Seq::empty(),
            views(new_names@),
            headers_model(headers@),
            pairs(fixed@),
            start@,
            step@,
        ).body,
{
    let mut body = one_stmt(
        Stmt::Decl { ty: CType::Float, name: "reduceVar".to_owned(), init: None },
    );
    push_stmt(&mut body, raw_line(""));
    let ghost opening = seq![
        StmtModel::Decl { ty: CType::Float, name: "reduceVar"@, init: None },
        StmtModel::Raw(""@),
    ];
    let ghost decls = index_decls(views(new_names@), pairs(fixed@));
    proof {
        assert(stmts_model(body@) =~= opening + decls.take(0));
    }
    let mut i: usize = 0;
    while i < new_names.len()
        invariant
            i <= new_names.len(),
            decls == index_decls(views(new_names@), pairs(fixed@)),
            stmts_model(body@) == opening + decls.take(i as int),
        decreases new_names.len() - i,
    {
        let init = lookup_fixed(fixed, new_names[i].as_str());
        push_stmt(&mut body, Stmt::Decl { ty: CType::Long, name: new_names[i].clone(), init });
        proof {
            assert(decls.take(i + 1) =~= decls.take(i as int).push(decls[i as int]));
            assert(stmts_model(body@) =~= opening + decls.take(i + 1));
        }
        i += 1;
    }
    proof {
        assert(decls.take(i as int) =~= decls);
    }
    push_stmt(&mut body, raw_line(""));
    push_stmt(&mut body, assign("reduceVar".to_owned(), start));
    let inner = one_stmt(assign("reduceVar".to_owned(), raw(step)));
    append_stmts(&mut body, nest_loops(headers, inner));
    push_stmt(&mut body, Stmt::Return(Some(raw("reduceVar".to_owned()))));
    proof {
        let target = reduce_function(
            Seq::empty(),
            Seq::empty(),
            Seq::empty(),
            views(new_names@),
            headers_model(headers@),
            pairs(fixed@),
            start@,
            step@,
        ).body;
        assert(stmts_model(body@) =~= target);
    }
    body
}

/// Emits the function of a reduction and returns its call.
pub fn gen_reduce(
    g: &mut Gen,
    names: &Vec<String>,
    operator: &Operator,
    body_context_hint: &Vec<String>,
    body: &Expr,
    domain: &Option<ReduceDomain>,
) -> (r: Result<CExpr>)
    requires
        expr_wf(*body),
        domain matches Some(d) ==> d.wf(),
    ensures
        final(g).env() == old(g).env(),
        (outcome(r), final(g).emitted()) == reduce_value(
            old(g).env(),
            old(g).emitted(),
            views(names@),
            *operator,
            views(body_context_hint@),
            *body,
            *domain,
        ),
    decreases body, 1int,
{
    let d = match domain {
        Some(d) => d,
        None => return Err(
            unsupported(
                "reduce body missing a context domain — codegen must run after Normalize's context refresh",
            ),
        ),
    };
    if (d.total as u64) < names.len() as u64 {
        return Err(
            unsupported("reduce body's domain has fewer dims than the ambient index tuple"),
        );
    }
    if d.total as u64 == names.len() as u64 {
        return Err(unsupported("reduce with no new index dims"));
    }
    let nest = match &d.nest {
        Ok(nest) => nest,
        Err(e) => return Err(isl_bound_err("generating this reduce's own summation loop", e)),
    };
    let primed = prime_names(names);
    let new_hint = if body_context_hint.len() as u64 == d.total as u64 {
        names_from(body_context_hint, names.len())
    } else {
        Vec::new()
    };
    proof {
        assert(views(Seq::<String>::empty()) =~= Seq::<Seq<char>>::empty());
    }
    let new_names = pick_names_prefixed(&new_hint, d.total - names.len() as u32, "k");
    let all = concat_names(&primed, &new_names);
    proof {
        assert(views(all@).len() == all@.len());
        assert(views(primed@).len() == primed@.len());
        assert(views(new_names@).len() == new_names@.len());
    }
    let headers = fill_headers(nest, &all);
    let fixed = match find_fixed(d, &headers, &primed, &new_names, &all) {
        Ok(fixed) => fixed,
        Err(e) => return Err(e),
    };
    let value = match gen_value(g, &all, body) {
        Ok(v) => v,
        Err(e) => return Err(e),
    };
    let start = match neutral_element(operator) {
        Ok(start) => start,
        Err(e) => return Err(e),
    };
    if let Operator::External(name) = operator {
        g.add_external(name.as_str());
    }
    let text = value.to_text();
    let step = match accumulate(operator, "reduceVar", text.as_str()) {
        Some(step) => step,
        None => return Err(unknown_reduce_error(operator)),
    };
    let fn_name = cat2("reduce", dec_usize(g.reduce_fns.len()).as_str());
    let params = long_param_list(&g.param_names, &primed);
    let stmts = reduce_body(&new_names, headers, &fixed, start, step);
    let ghost before = g.reduce_fns@;
    g.reduce_fns.push(
        Function {
            return_type: CType::Float,
            name: fn_name.clone(),
            params,
            body: stmts,
            is_static: true,
        },
    );
    proof {
        assert(functions_model(g.reduce_fns@) =~= functions_model(before).push(
            g.reduce_fns@.last()@,
        ));
    }
    let args = name_args(&concat_names(&g.param_names, names));
    Ok(CExpr::Call(fn_name, args))
}

/// `,name` for each name, one after another.
pub open spec fn listed(names: Seq<Seq<char>>) -> Seq<char>
    decreases names.len(),
{
    if names.len() == 0 {
        Seq::empty()
    } else {
        listed(names.drop_last()) + ","@ + names.last()
    }
}

fn list_names(names: &Vec<String>) -> (r: String)
    ensures
        r@ == listed(views(names@)),
{
    let mut out = String::new();
    let mut i: usize = 0;
    proof {
        assert(views(names@).take(0) =~= Seq::empty());
    }
    while i < names.len()
        invariant
            i <= names.len(),
            out@ == listed(views(names@).take(i as int)),
        decreases names.len() - i,
    {
        proof {
            assert(views(names@).take(i + 1).drop_last() =~= views(names@).take(i as int));
        }
        out.append(",");
        out.append(names[i].as_str());
        i += 1;
    }
    proof {
        assert(views(names@).take(i as int) =~= views(names@));
    }
    out
}

/// `%ld` for each of `n` values, with commas between.
pub open spec fn long_formats(n: nat) -> Seq<char> {
    joined(Seq::new(n, |i: int| "%ld"@), ","@)
}

fn format_spec(n: usize) -> (r: String)
    ensures
        r@ == long_formats(n as nat),
{
    let mut parts: Vec<String> = Vec::new();
    let mut i: usize = 0;
    while i < n
        invariant
            i <= n,
            views(parts@) =~= Seq::new(i as nat, |i: int| "%ld"@),
        decreases n - i,
    {
        push_text(&mut parts, "%ld".to_owned());
        i += 1;
    }
    join(&parts, ",")
}

/// The evaluation function of a variable: the first call at a point marks it as in progress,
/// computes its value and marks it as done; a call while it is in progress stops the program.
pub open spec fn eval_function(name: Seq<char>, names: Seq<Seq<char>>, value: Seq<char>) -> FunctionModel {
    let flag = "_flag_"@ + name + "("@ + joined(names, ","@) + ")"@;
    let data = name + "("@ + joined(names, ","@) + ")"@;
    FunctionModel {
        return_type: CType::Float,
        name: "eval_"@ + name,
        params: long_params(names),
        body: seq![
            StmtModel::Raw(""@),
            StmtModel::Raw("// Check the flags."@),
            StmtModel::If {
                cond: "("@ + flag + ") == ('N')"@,
                then_branch: seq![
                    StmtModel::Assign { target: flag, value: "'I'"@ },
                    StmtModel::Assign { target: data, value },
                    StmtModel::Assign { target: flag, value: "'F'"@ },
                ],
                else_branch: seq![
                    StmtModel::If {
                        cond: "("@ + flag + ") == ('I')"@,
                        then_branch: seq![
                            StmtModel::Raw(
                                "printf(\"There is a self dependence on "@ + name + " at ("@
                                    + long_formats(names.len()) + ")\\n\""@ + listed(names) + ");"@,
                            ),
                            StmtModel::Raw("exit(-1);"@),
                        ],
                        else_branch: seq![],
                    },
                ],
            },
            StmtModel::Raw(""@),
            StmtModel::Return(Some(data)),
        ],
        is_static: true,
    }
}

/// What the equations of a variable generate: its evaluation function.
pub open spec fn eval_function_value(
    env: Env,
    st: Emitted,
    v: Variable,
    eqs: Seq<(String, StandardEquation)>,
) -> (core::result::Result<FunctionModel, Failure>, Emitted) {
    let names = picked(views(eqs[0].1.index_names@), v.domain.ndims as nat, "i"@);
    match piecewise_value(env, st, names, eqs) {
        (Err(f), s1) => (Err(f), s1),
        (Ok(t), s1) => (Ok(eval_function(v.name@, names, t)), s1),
    }
}

pub open spec fn function_outcome(r: Result<Function>) -> core::result::Result<FunctionModel, Failure> {
    match r {
        Ok(f) => Ok(f@),
        Err(e) => Err(e@),
    }
}

pub fn gen_eval_function(
    g: &mut Gen,
    v: &Variable,
    eqs: &Vec<(&String, &StandardEquation)>,
) -> (r: Result<Function>)
    requires
        eqs@.len() > 0,
        forall|i: int| 0 <= i < eqs@.len() ==> expr_wf((#[trigger] eqs@[i]).1.expr),
    ensures
        final(g).env() == old(g).env(),
        (function_outcome(r), final(g).emitted()) == eval_function_value(
            old(g).env(),
            old(g).emitted(),
            *v,
            referred(eqs@),
        ),
{
    proof {
        assert(referred(eqs@)[0] == (*eqs@[0].0, *eqs@[0].1));
    }
    let names = pick_names(&eqs[0].1.index_names, v.domain.ndims);
    let value = match gen_piecewise(g, &names, eqs) {
        Ok(value) => value,
        Err(e) => return Err(e),
    };
    let name = v.name.as_str();
    let list = join(&names, ",");
    let flag = cat5("_flag_", name, "(", list.as_str(), ")");
    let data = cat4(name, "(", list.as_str(), ")");
    let mut complaint = cat5(
        "printf(\"There is a self dependence on ",
        name,
        " at (",
        format_spec(names.len()).as_str(),
        ")\\n\"",
    );
    complaint.append(list_names(&names).as_str());
    complaint.append(");");
    let ghost ns = views(names@);
    let ghost model = eval_function(v.name@, ns, value@);
    let mut compute = one_stmt(assign(flag.clone(), raw("'I'".to_owned())));
    push_stmt(&mut compute, assign(data.clone(), value));
    push_stmt(&mut compute, assign(flag.clone(), raw("'F'".to_owned())));
    let mut stop = one_stmt(Stmt::Raw(complaint));
    push_stmt(&mut stop, raw_line("exit(-1);"));
    let none: Vec<Stmt> = Vec::new();
    proof {
        assert(stmts_model(none@) =~= seq![]);
    }
    let in_progress = one_stmt(
        Stmt::If {
            cond: raw(cat3("(", flag.as_str(), ") == ('I')")),
            then_branch: stop,
            else_branch: none,
        },
    );
    let check = Stmt::If {
        cond: raw(cat3("(", flag.as_str(), ") == ('N')")),
        then_branch: compute,
        else_branch: in_progress,
    };
    let mut body = one_stmt(raw_line(""));
    push_stmt(&mut body, raw_line("// Check the flags."));
    push_stmt(&mut body, check);
    push_stmt(&mut body, raw_line(""));
    push_stmt(&mut body, Stmt::Return(Some(raw(data))));
    let no_names: Vec<String> = Vec::new();
    proof {
        assert(stmts_model(stop@) =~= model.body[2]->else_branch[0]->then_branch);
        assert(stmts_model(in_progress@) =~= model.body[2]->else_branch);
        assert(stmts_model(compute@) =~= model.body[2]->then_branch);
        assert(stmts_model(body@) =~= model.body);
        assert(views(no_names@) =~= Seq::empty());
        assert(long_params(Seq::empty()) + long_params(ns) =~= long_params(ns));
    }
    Ok(
        Function {
            return_type: CType::Float,
            name: cat2("eval_", name),
            params: long_param_list(&no_names, &names),
            body,
            is_static: true,
        },
    )
}

/// The call that evaluates one point of an output, with the indices `i0`, `i1`, and so on.
pub open spec fn eval_call(v: Variable) -> StmtModel {
    StmtModel::Expr(
        "eval_"@ + v.name@ + "("@ + joined(macro_params(v.domain.ndims as nat), ", "@) + ")"@,
    )
}

/// The loop nest that evaluates every point of an output.
pub open spec fn eval_loop(v: Variable) -> StmtsOutcome {
    if v.domain.ndims == 0 {
        Ok(seq![eval_call(v)])
    } else {
        match v.domain.nest {
            Err(e) => Err(
                bound_failure("generating the driver's loop over '"@ + v.name@ + "'"@, e.message@),
            ),
            Ok(nest) => if nest@.len() != v.domain.ndims {
                Err(
                    Failure::Unsupported(
                        "driver loop for '"@ + v.name@ + "' produced "@ + dec(nest@.len())
                            + " nested loops, expected "@ + dec(v.domain.ndims as nat),
                    ),
                )
            } else {
                Ok(nested(headers_model(nest@), seq![eval_call(v)]))
            },
        }
    }
}

fn copy_headers(v: &Vec<LoopHeader>) -> (r: Vec<LoopHeader>)
    ensures
        headers_model(r@) == headers_model(v@),
{
    let mut out: Vec<LoopHeader> = Vec::new();
    let mut i: usize = 0;
    while i < v.len()
        invariant
            i <= v.len(),
            headers_model(out@) =~= headers_model(v@).take(i as int),
        decreases v.len() - i,
    {
        let ghost before = headers_model(out@);
        out.push(
            LoopHeader {
                iterator: v[i].iterator.clone(),
                init: v[i].init.clone(),
                cond: v[i].cond.clone(),
                inc: v[i].inc.clone(),
            },
        );
        proof {
            assert(headers_model(out@) =~= before.push(headers_model(v@)[i as int]));
        }
        i += 1;
    }
    proof {
        assert(headers_model(v@).take(i as int) =~= headers_model(v@));
    }
    out
}

pub fn gen_eval_loop(v: &Variable) -> (r: Result<Vec<Stmt>>)
    ensures
        stmts_outcome(r) == eval_loop(*v),
{
    let names = index_names(v.domain.ndims);
    let call = one_stmt(
        Stmt::Expr(CExpr::Call(cat2("eval_", v.name.as_str()), name_args(&names))),
    );
    proof {
        assert(stmts_model(call@) =~= seq![eval_call(*v)]);
    }
    if v.domain.ndims == 0 {
        return Ok(call);
    }
    let nest = match &v.domain.nest {
        Ok(nest) => nest,
        Err(e) => {
            let context = cat3("generating the driver's loop over '", v.name.as_str(), "'");
            return Err(isl_bound_err(context.as_str(), e));
        },
    };
    if nest.len() as u64 != v.domain.ndims as u64 {
        let mut message = cat5(
            "driver loop for '",
            v.name.as_str(),
            "' produced ",
            dec_usize(nest.len()).as_str(),
            " nested loops, expected ",
        );
        message.append(dec_u32(v.domain.ndims).as_str());
        return Err(CodegenError::Unsupported(message));
    }
    Ok(nest_loops(copy_headers(nest), call))
}

fn index_names(n: u32) -> (r: Vec<String>)
    ensures
        views(r@) == macro_params(n as nat),
{
    let mut out: Vec<String> = Vec::new();
    let mut d: u32 = 0;
    while d < n
        invariant
            d <= n,
            views(out@) =~= macro_params(d as nat),
        decreases n - d,
    {
        push_text(&mut out, cat2("i", dec_u32(d).as_str()));
        d += 1;
    }
    out
}

/// The loop nests of the outputs, one after another.
pub open spec fn eval_loops(vars: Seq<Variable>) -> StmtsOutcome
    decreases vars.len(),
{
    if vars.len() == 0 {
        Ok(Seq::empty())
    } else {
        match eval_loops(vars.drop_last()) {
            Err(f) => Err(f),
            Ok(before) => match eval_loop(vars.last()) {
                Err(f) => Err(f),
                Ok(more) => Ok(before + more),
            },
        }
    }
}

proof fn lemma_eval_loops_stop(vars: Seq<Variable>, n: int)
    requires
        0 <= n <= vars.len(),
        eval_loops(vars.take(n)) is Err,
    ensures
        eval_loops(vars) == eval_loops(vars.take(n)),
    decreases vars.len() - n,
{
    if n < vars.len() {
        assert(vars.take(n + 1).drop_last() =~= vars.take(n));
        lemma_eval_loops_stop(vars, n + 1);
    } else {
        assert(vars.take(n) =~= vars);
    }
}

fn gen_eval_loops(vars: &Vec<Variable>) -> (r: Result<Vec<Stmt>>)
    ensures
        stmts_outcome(r) == eval_loops(vars@),
{
    let mut out: Vec<Stmt> = Vec::new();
    let mut i: usize = 0;
    proof {
        assert(vars@.take(0) =~= Seq::empty());
        assert(stmts_model(out@) =~= Seq::empty());
    }
    while i < vars.len()
        invariant
            i <= vars.len(),
            eval_loops(vars@.take(i as int)) == Ok::<Seq<StmtModel>, Failure>(stmts_model(out@)),
        decreases vars.len() - i,
    {
        proof {
            assert(vars@.take(i + 1).drop_last() =~= vars@.take(i as int));
            assert(vars@.take(i + 1).last() == vars@[i as int]);
        }
        match gen_eval_loop(&vars[i]) {
            Ok(more) => append_stmts(&mut out, more),
            Err(e) => {
                proof {
                    lemma_eval_loops_stop(vars@, i + 1);
                }
                return Err(e);
            },
        }
        i += 1;
    }
    proof {
        assert(vars@.take(i as int) =~= vars@);
    }
    Ok(out)
}

/// Allocates the flags of a variable, all saying that the point is not evaluated.
pub open spec fn flag_alloc(v: Variable) -> StmtsOutcome {
    let flag = "_flag_"@ + v.name@;
    match flat_alloc(flag, v.domain, "char"@) {
        Err(f) => Err(f),
        Ok(stmts) => Ok(
            stmts.push(
                StmtModel::Raw(
                    "memset("@ + flag + ",'N',"@ + arith_text(
                        extent(flag, 0, v.domain.ndims as nat),
                    ) + ");"@,
                ),
            ),
        ),
    }
}

pub open spec fn flag_allocs(vars: Seq<Variable>) -> StmtsOutcome
    decreases vars.len(),
{
    if vars.len() == 0 {
        Ok(Seq::empty())
    } else {
        match flag_allocs(vars.drop_last()) {
            Err(f) => Err(f),
            Ok(before) => match flag_alloc(vars.last()) {
                Err(f) => Err(f),
                Ok(more) => Ok(before + more),
            },
        }
    }
}

proof fn lemma_flag_allocs_stop(vars: Seq<Variable>, n: int)
    requires
        0 <= n <= vars.len(),
        flag_allocs(vars.take(n)) is Err,
    ensures
        flag_allocs(vars) == flag_allocs(vars.take(n)),
    decreases vars.len() - n,
{
    if n < vars.len() {
        assert(vars.take(n + 1).drop_last() =~= vars.take(n));
        lemma_flag_allocs_stop(vars, n + 1);
    } else {
        assert(vars.take(n) =~= vars);
    }
}

fn flag_alloc_stmts(vars: &Vec<Variable>) -> (r: Result<Vec<Stmt>>)
    requires
        all_wf(vars@),
    ensures
        stmts_outcome(r) == flag_allocs(vars@),
{
    let mut out: Vec<Stmt> = Vec::new();
    let mut i: usize = 0;
    proof {
        assert(vars@.take(0) =~= Seq::empty());
        assert(stmts_model(out@) =~= Seq::empty());
    }
    while i < vars.len()
        invariant
            i <= vars.len(),
            all_wf(vars@),
            flag_allocs(vars@.take(i as int)) == Ok::<Seq<StmtModel>, Failure>(stmts_model(out@)),
        decreases vars.len() - i,
    {
        proof {
            assert(vars@.take(i + 1).drop_last() =~= vars@.take(i as int));
            assert(vars@.take(i + 1).last() == vars@[i as int]);
        }
        let flag = cat2("_flag_", vars[i].name.as_str());
        match flat_alloc_stmts(flag.as_str(), &vars[i].domain, "char") {
            Ok(more) => {
                let mut more = more;
                let total = flat_total_size_expr(flag.as_str(), vars[i].domain.ndims);
                push_stmt(
                    &mut more,
                    Stmt::Raw(cat5("memset(", flag.as_str(), ",'N',", total.as_str(), ");")),
                );
                append_stmts(&mut out, more);
            },
            Err(e) => {
                proof {
                    lemma_flag_allocs_stop(vars@, i + 1);
                }
                return Err(e);
            },
        }
        i += 1;
    }
    proof {
        assert(vars@.take(i as int) =~= vars@);
    }
    Ok(out)
}

/// The highest dimensionality of a list of variables.
pub open spec fn max_dims(vars: Seq<Variable>) -> u32
    decreases vars.len(),
{
    if vars.len() == 0 {
        0
    } else {
        let before = max_dims(vars.drop_last());
        let last = vars.last().domain.ndims;
        if before <= last {
            last
        } else {
            before
        }
    }
}

fn highest_dims(vars: &Vec<Variable>) -> (r: u32)
    ensures
        r == max_dims(vars@),
{
    let mut m: u32 = 0;
    let mut i: usize = 0;
    proof {
        assert(vars@.take(0) =~= Seq::empty());
    }
    while i < vars.len()
        invariant
            i <= vars.len(),
            m == max_dims(vars@.take(i as int)),
        decreases vars.len() - i,
    {
        proof {
            assert(vars@.take(i + 1).drop_last() =~= vars@.take(i as int));
        }
        if m <= vars[i].domain.ndims {
            m = vars[i].domain.ndims;
        }
        i += 1;
    }
    proof {
        assert(vars@.take(i as int) =~= vars@);
    }
    m
}

/// The exit that is taken where the parameters make no body apply.
pub open spec fn validity_check(validity: Seq<char>) -> StmtModel {
    StmtModel::If {
        cond: "!("@ + validity + ")"@,
        then_branch: seq![
            StmtModel::Raw("printf(\"The value of the parameters are invalid.\\n\");"@),
            StmtModel::Raw("exit(-1);"@),
        ],
        else_branch: seq![],
    }
}

/// The entry point up to where memory is given back.
pub open spec fn until_frees(
    params: Seq<Seq<char>>,
    system: System,
    validity: Seq<char>,
    locals: Seq<StmtModel>,
    output_flags: Seq<StmtModel>,
    local_flags: Seq<StmtModel>,
    loops: Seq<StmtModel>,
) -> Seq<StmtModel> {
    index_decls(macro_params(max_dims(system.outputs@) as nat), Seq::empty()) + seq![
        StmtModel::Raw(""@),
        StmtModel::Raw("// Copy arguments to the global variables."@),
    ] + copies(params) + copies(var_names(system.inputs@)) + copies(var_names(system.outputs@))
        + seq![
        StmtModel::Raw(""@),
        StmtModel::Raw("// Check parameter validity."@),
        validity_check(validity),
        StmtModel::Raw(""@),
        StmtModel::Raw("// Allocate memory for local storage."@),
    ] + locals + seq![
        StmtModel::Raw(""@),
        StmtModel::Raw("// Allocate and initialize flag variables."@),
    ] + output_flags + local_flags + seq![
        StmtModel::Raw(""@),
        StmtModel::Raw("// Evaluate all the outputs."@),
    ] + loops + seq![
        StmtModel::Raw(""@),
        StmtModel::Raw("// Free all allocated memory."@),
    ]
}

/// The body of the entry point.
pub open spec fn driver_body(
    params: Seq<Seq<char>>,
    system: System,
    validity: Seq<char>,
    locals: Seq<StmtModel>,
    output_flags: Seq<StmtModel>,
    local_flags: Seq<StmtModel>,
    loops: Seq<StmtModel>,
) -> Seq<StmtModel> {
    until_frees(params, system, validity, locals, output_flags, local_flags, loops) + raw_stmts(
        wrapped("free("@, var_names(system.locals@), ");"@),
    ) + raw_stmts(wrapped("free(_flag_"@, var_names(system.outputs@), ");"@)) + raw_stmts(
        wrapped("free(_flag_"@, var_names(system.locals@), ");"@),
    )
}

/// The entry point of a system.
pub open spec fn driver(params: Seq<Seq<char>>, system: System) -> core::result::Result<
    FunctionModel,
    Failure,
> {
    match system.validity {
        Err(e) => Err(Failure::Isl(e.message@)),
        Ok(validity) => match local_allocs(system.locals@) {
            Err(f) => Err(f),
            Ok(locals) => match flag_allocs(system.outputs@) {
                Err(f) => Err(f),
                Ok(output_flags) => match flag_allocs(system.locals@) {
                    Err(f) => Err(f),
                    Ok(local_flags) => match eval_loops(system.outputs@) {
                        Err(f) => Err(f),
                        Ok(loops) => Ok(
                            FunctionModel {
                                return_type: CType::Void,
                                name: system.name@,
                                params: entry_params(params, system.inputs@, system.outputs@),
                                body: driver_body(
                                    params,
                                    system,
                                    validity@,
                                    locals,
                                    output_flags,
                                    local_flags,
                                    loops,
                                ),
                                is_static: false,
                            },
                        ),
                    },
                },
            },
        },
    }
}

pub fn gen_driver(param_names: &Vec<String>, system: &System) -> (r: Result<Function>)
    requires
        system.wf(),
    ensures
        function_outcome(r) == driver(views(param_names@), *system),
{
    let validity = match &system.validity {
        Ok(v) => v,
        Err(e) => return Err(CodegenError::Isl(e.clone())),
    };
    let locals = match local_alloc_stmts(&system.locals) {
        Ok(v) => v,
        Err(e) => return Err(e),
    };
    let output_flags = match flag_alloc_stmts(&system.outputs) {
        Ok(v) => v,
        Err(e) => return Err(e),
    };
    let local_flags = match flag_alloc_stmts(&system.locals) {
        Ok(v) => v,
        Err(e) => return Err(e),
    };
    let loops = match gen_eval_loops(&system.outputs) {
        Ok(v) => v,
        Err(e) => return Err(e),
    };
    let ghost target = driver_body(
        views(param_names@),
        *system,
        validity@,
        stmts_model(locals@),
        stmts_model(output_flags@),
        stmts_model(local_flags@),
        stmts_model(loops@),
    );
    let mut body = index_decl_stmts(highest_dims(&system.outputs));
    push_stmt(&mut body, raw_line(""));
    push_stmt(&mut body, raw_line("// Copy arguments to the global variables."));
    push_param_copies(&mut body, param_names);
    push_var_copies(&mut body, &system.inputs);
    push_var_copies(&mut body, &system.outputs);
    push_stmt(&mut body, raw_line(""));
    push_stmt(&mut body, raw_line("// Check parameter validity."));
    push_stmt(&mut body, validity_check_stmt(validity.as_str()));
    push_stmt(&mut body, raw_line(""));
    push_stmt(&mut body, raw_line("// Allocate memory for local storage."));
    append_stmts(&mut body, locals);
    push_stmt(&mut body, raw_line(""));
    push_stmt(&mut body, raw_line("// Allocate and initialize flag variables."));
    append_stmts(&mut body, output_flags);
    append_stmts(&mut body, local_flags);
    push_stmt(&mut body, raw_line(""));
    push_stmt(&mut body, raw_line("// Evaluate all the outputs."));
    append_stmts(&mut body, loops);
    push_stmt(&mut body, raw_line(""));
    push_stmt(&mut body, raw_line("// Free all allocated memory."));
    push_raw_lines(&mut body, &wrap_names("free(", &system.locals, ");"));
    push_raw_lines(&mut body, &wrap_names("free(_flag_", &system.outputs, ");"));
    push_raw_lines(&mut body, &wrap_names("free(_flag_", &system.locals, ");"));
    proof {
        assert(stmts_model(body@) =~= target);
    }
    Ok(
        Function {
            return_type: CType::Void,
            name: system.name.clone(),
            params: entry_params_list(param_names, &system.inputs, &system.outputs),
            body,
            is_static: false,
        },
    )
}

fn validity_check_stmt(validity: &str) -> (r: Stmt)
    ensures
        r@ == validity_check(validity@),
{
    let mut then_branch = one_stmt(
        raw_line("printf(\"The value of the parameters are invalid.\\n\");"),
    );
    push_stmt(&mut then_branch, raw_line("exit(-1);"));
    let else_branch: Vec<Stmt> = Vec::new();
    proof {
        assert(stmts_model(then_branch@) =~= validity_check(validity@)->then_branch);
        assert(stmts_model(else_branch@) =~= seq![]);
    }
    Stmt::If { cond: raw(cat3("!(", validity, ")")), then_branch, else_branch }
}

fn index_decl_stmts(n: u32) -> (r: Vec<Stmt>)
    ensures
        stmts_model(r@) == index_decls(macro_params(n as nat), Seq::empty()),
{
    let names = index_names(n);
    let mut out: Vec<Stmt> = Vec::new();
    let mut i: usize = 0;
    while i < names.len()
        invariant
            i <= names.len(),
            stmts_model(out@) =~= index_decls(views(names@), Seq::empty()).take(i as int),
        decreases names.len() - i,
    {
        push_stmt(&mut out, Stmt::Decl { ty: CType::Long, name: names[i].clone(), init: None });
        i += 1;
    }
    proof {
        assert(index_decls(views(names@), Seq::empty()).take(i as int) =~= index_decls(
            views(names@),
            Seq::empty(),
        ));
    }
    out
}

/// `<header>;` for each function.
pub open spec fn declarations(fns: Seq<FunctionModel>) -> Seq<Seq<char>> {
    Seq::new(fns.len(), |i: int| fns[i].header() + ";"@)
}

/// The definition of each function, each followed by an empty line.
pub open spec fn definitions(fns: Seq<FunctionModel>) -> Seq<Seq<char>> {
    Seq::new(2 * fns.len(), |k: int| if k % 2 == 0 { fns[k / 2].definition() } else { ""@ })
}

fn declaration_lines(fns: &Vec<Function>) -> (r: Vec<String>)
    ensures
        views(r@) == declarations(functions_model(fns@)),
{
    let mut out: Vec<String> = Vec::new();
    let mut i: usize = 0;
    while i < fns.len()
        invariant
            i <= fns.len(),
            views(out@) =~= declarations(functions_model(fns@)).take(i as int),
        decreases fns.len() - i,
    {
        push_text(&mut out, cat2(fns[i].signature().as_str(), ";"));
        i += 1;
    }
    proof {
        assert(declarations(functions_model(fns@)).take(i as int) =~= declarations(
            functions_model(fns@),
        ));
    }
    out
}

fn definition_lines(fns: &Vec<Function>) -> (r: Vec<String>)
    ensures
        views(r@) == definitions(functions_model(fns@)),
{
    let mut out: Vec<String> = Vec::new();
    let mut i: usize = 0;
    while i < fns.len()
        invariant
            i <= fns.len(),
            views(out@) =~= definitions(functions_model(fns@)).take(2 * i),
        decreases fns.len() - i,
    {
        push_text(&mut out, fns[i].to_text());
        push_text(&mut out, "".to_owned());
        i += 1;
    }
    proof {
        assert(definitions(functions_model(fns@)).take(2 * i) =~= definitions(
            functions_model(fns@),
        ));
    }
    out
}

/// The declarations of the global variables.
pub open spec fn global_lines(system: System, params: Seq<Seq<char>>) -> Seq<Seq<char>> {
    seq!["// Global Variables"@] + wrapped("static long "@, params, ";"@) + interface_decls(
        system.inputs@,
    ) + interface_decls(system.outputs@) + flat_decls("float"@, ""@, system.locals@) + flat_decls(
        "char"@,
        "_flag_"@,
        system.outputs@,
    ) + flat_decls("char"@, "_flag_"@, system.locals@) + seq![""@]
}

fn push_globals(out: &mut Vec<String>, system: &System, param_names: &Vec<String>)
    ensures
        views(final(out)@) == views(old(out)@) + global_lines(*system, views(param_names@)),
{
    let ghost start = views(out@);
    line(out, "// Global Variables");
    extend_lines(out, wrap_texts("static long ", param_names, ";"));
    extend_lines(out, interface_decl_lines(&system.inputs));
    extend_lines(out, interface_decl_lines(&system.outputs));
    push_flat_decls(out, "float", "", &system.locals);
    push_flat_decls(out, "char", "_flag_", &system.outputs);
    push_flat_decls(out, "char", "_flag_", &system.locals);
    line(out, "");
    proof {
        assert(views(out@) =~= start + global_lines(*system, views(param_names@)));
    }
}

/// The access macros.
pub open spec fn macro_lines(system: System) -> Seq<Seq<char>> {
    seq!["// Memory Macros"@] + interface_macros(system.inputs@) + interface_macros(system.outputs@)
        + flat_macros(""@, system.locals@) + flat_macros("_flag_"@, system.outputs@) + flat_macros(
        "_flag_"@,
        system.locals@,
    ) + seq![""@]
}

fn push_macros(out: &mut Vec<String>, system: &System)
    ensures
        views(final(out)@) == views(old(out)@) + macro_lines(*system),
{
    let ghost start = views(out@);
    line(out, "// Memory Macros");
    extend_lines(out, interface_macro_lines(&system.inputs));
    extend_lines(out, interface_macro_lines(&system.outputs));
    extend_lines(out, flat_macro_lines("", &system.locals));
    extend_lines(out, flat_macro_lines("_flag_", &system.outputs));
    extend_lines(out, flat_macro_lines("_flag_", &system.locals));
    line(out, "");
    proof {
        assert(views(out@) =~= start + macro_lines(*system));
    }
}

/// The declarations of all functions, then their definitions.
pub open spec fn function_lines(
    reduce_fns: Seq<FunctionModel>,
    eval_fns: Seq<FunctionModel>,
    driver: FunctionModel,
) -> Seq<Seq<char>> {
    seq!["// Function Declarations"@] + declarations(reduce_fns) + declarations(eval_fns) + seq![
        driver.header() + ";"@,
        ""@,
    ] + definitions(reduce_fns) + definitions(eval_fns) + seq![driver.definition(), ""@]
}

fn push_functions(
    out: &mut Vec<String>,
    reduce_fns: &Vec<Function>,
    eval_fns: &Vec<Function>,
    driver: &Function,
)
    ensures
        views(final(out)@) == views(old(out)@) + function_lines(
            functions_model(reduce_fns@),
            functions_model(eval_fns@),
            driver@,
        ),
{
    let ghost start = views(out@);
    line(out, "// Function Declarations");
    extend_lines(out, declaration_lines(reduce_fns));
    extend_lines(out, declaration_lines(eval_fns));
    push_text(out, cat2(driver.signature().as_str(), ";"));
    line(out, "");
    extend_lines(out, definition_lines(reduce_fns));
    extend_lines(out, definition_lines(eval_fns));
    push_text(out, driver.to_text());
    line(out, "");
    proof {
        assert(views(out@) =~= start + function_lines(
            functions_model(reduce_fns@),
            functions_model(eval_fns@),
            driver@,
        ));
    }
}

/// The lines that undefine every macro.
pub open spec fn undef_lines(system: System) -> Seq<Seq<char>> {
    let inputs = var_names(system.inputs@);
    let outputs = var_names(system.outputs@);
    let locals = var_names(system.locals@);
    seq!["// Undefine the Memory and Function Macros"@] + wrapped("#undef "@, inputs, ""@) + wrapped(
        "#undef "@,
        outputs,
        ""@,
    ) + wrapped("#undef "@, locals, ""@) + wrapped("#undef _flag_"@, outputs, ""@) + wrapped(
        "#undef _flag_"@,
        locals,
        ""@,
    ) + undefined_macros()
}

fn push_undefs(out: &mut Vec<String>, system: &System)
    ensures
        views(final(out)@) == views(old(out)@) + undef_lines(*system),
{
    let ghost start = views(out@);
    line(out, "// Undefine the Memory and Function Macros");
    extend_lines(out, wrap_names("#undef ", &system.inputs, ""));
    extend_lines(out, wrap_names("#undef ", &system.outputs, ""));
    extend_lines(out, wrap_names("#undef ", &system.locals, ""));
    extend_lines(out, wrap_names("#undef _flag_", &system.outputs, ""));
    extend_lines(out, wrap_names("#undef _flag_", &system.locals, ""));
    push_undefined_macros(out);
    proof {
        assert(views(out@) =~= start + undef_lines(*system));
    }
}

/// The lines of a whole program.
pub open spec fn program_lines(
    system: System,
    params: Seq<Seq<char>>,
    emitted: Emitted,
    eval_fns: Seq<FunctionModel>,
    driver: FunctionModel,
) -> Seq<Seq<char>> {
    seq!["// This code was auto-generated by alphac (alpha-rs)."@, ""@] + preamble() + external_decls(
        emitted.externals,
    ) + global_lines(system, params) + macro_lines(system) + function_lines(
        emitted.reduce_fns,
        eval_fns,
        driver,
    ) + undef_lines(system)
}

pub fn render_program(system: &System, g: &Gen, eval_fns: &Vec<Function>, driver: &Function) -> (r:
    String)
    ensures
        r@ == lines_text(
            program_lines(
                *system,
                g.env().params,
                g.emitted(),
                functions_model(eval_fns@),
                driver@,
            ),
        ),
{
    let mut out: Vec<String> = Vec::new();
    line(&mut out, "// This code was auto-generated by alphac (alpha-rs).");
    line(&mut out, "");
    push_preamble(&mut out);
    push_external_decls(&mut out, &g.externals);
    push_globals(&mut out, system, &g.param_names);
    push_macros(&mut out, system);
    push_functions(&mut out, &g.reduce_fns, eval_fns, driver);
    push_undefs(&mut out, system);
    proof {
        assert(views(out@) =~= program_lines(
            *system,
            g.env().params,
            g.emitted(),
            functions_model(eval_fns@),
            driver@,
        ));
    }
    print_lines(&out)
}

/// What each declared variable is known as, in order of declaration.
pub open spec fn known_as(vars: Seq<Variable>, role: Role) -> Seq<(Seq<char>, VarInfo)> {
    Seq::new(vars.len(), |i: int| (vars[i].name@, VarInfo { role, ndims: vars[i].domain.ndims }))
}

fn push_known(table: &mut Vec<(String, VarInfo)>, vars: &Vec<Variable>, role: Role)
    ensures
        entries(final(table)@) == entries(old(table)@) + known_as(vars@, role),
{
    let ghost start = entries(table@);
    let ghost target = known_as(vars@, role);
    let mut i: usize = 0;
    proof {
        assert(start + target.take(0) =~= start);
    }
    while i < vars.len()
        invariant
            i <= vars.len(),
            target == known_as(vars@, role),
            entries(table@) == start + target.take(i as int),
        decreases vars.len() - i,
    {
        let ghost before = entries(table@);
        table.push((vars[i].name.clone(), VarInfo { role, ndims: vars[i].domain.ndims }));
        proof {
            assert(entries(table@) =~= before.push(target[i as int]));
            assert(start + target.take(i + 1) =~= (start + target.take(i as int)).push(
                target[i as int],
            ));
        }
        i += 1;
    }
    proof {
        assert(target.take(i as int) =~= target);
    }
}

/// What the variables of a system are known as.
pub open spec fn known_variables(system: System) -> Seq<(Seq<char>, VarInfo)> {
    known_as(system.inputs@, Role::Input) + known_as(system.outputs@, Role::Output) + known_as(
        system.locals@,
        Role::Local,
    )
}

/// The table of a system's variables: inputs, then outputs, then locals.
pub fn variable_table(system: &System) -> (r: Vec<(String, VarInfo)>)
    ensures
        entries(r@) == known_variables(*system),
{
    let mut table: Vec<(String, VarInfo)> = Vec::new();
    proof {
        assert(entries(table@) =~= Seq::empty());
        assert(Seq::empty() + known_as(system.inputs@, Role::Input) =~= known_as(
            system.inputs@,
            Role::Input,
        ));
    }
    push_known(&mut table, &system.inputs, Role::Input);
    push_known(&mut table, &system.outputs, Role::Output);
    push_known(&mut table, &system.locals, Role::Local);
    table
}

/// The evaluation functions of the variables that have equations, in order.
pub open spec fn eval_functions(
    env: Env,
    st: Emitted,
    bodies: Seq<SystemBody>,
    vars: Seq<Variable>,
) -> (core::result::Result<Seq<FunctionModel>, Failure>, Emitted)
    decreases vars.len(),
{
    if vars.len() == 0 {
        (Ok(Seq::empty()), st)
    } else {
        match eval_functions(env, st, bodies, vars.drop_last()) {
            (Err(f), s1) => (Err(f), s1),
            (Ok(fns), s1) => {
                let eqs = equations_of(bodies, vars.last().name@);
                if eqs.len() == 0 {
                    (Ok(fns), s1)
                } else {
                    match eval_function_value(env, s1, vars.last(), eqs) {
                        (Err(f), s2) => (Err(f), s2),
                        (Ok(f), s2) => (Ok(fns.push(f)), s2),
                    }
                }
            },
        }
    }
}

proof fn lemma_eval_functions_stop(
    env: Env,
    st: Emitted,
    bodies: Seq<SystemBody>,
    vars: Seq<Variable>,
    n: int,
)
    requires
        0 <= n <= vars.len(),
        eval_functions(env, st, bodies, vars.take(n)).0 is Err,
    ensures
        eval_functions(env, st, bodies, vars) == eval_functions(env, st, bodies, vars.take(n)),
    decreases vars.len() - n,
{
    if n < vars.len() {
        assert(vars.take(n + 1).drop_last() =~= vars.take(n));
        lemma_eval_functions_stop(env, st, bodies, vars, n + 1);
    } else {
        assert(vars.take(n) =~= vars);
    }
}

pub open spec fn functions_outcome(r: Result<Vec<Function>>) -> core::result::Result<
    Seq<FunctionModel>,
    Failure,
> {
    match r {
        Ok(v) => Ok(functions_model(v@)),
        Err(e) => Err(e@),
    }
}

fn gen_eval_functions(g: &mut Gen, bodies: &Vec<SystemBody>, vars: &Vec<Variable>) -> (r: Result<
    Vec<Function>,
>)
    requires
        all_equations_wf(bodies@),
    ensures
        final(g).env() == old(g).env(),
        (functions_outcome(r), final(g).emitted()) == eval_functions(
            old(g).env(),
            old(g).emitted(),
            bodies@,
            vars@,
        ),
{
    let mut out: Vec<Function> = Vec::new();
    let mut i: usize = 0;
    proof {
        assert(vars@.take(0) =~= Seq::empty());
        assert(functions_model(out@) =~= Seq::empty());
    }
    while i < vars.len()
        invariant
            i <= vars.len(),
            all_equations_wf(bodies@),
            g.env() == old(g).env(),
            (Ok::<Seq<FunctionModel>, Failure>(functions_model(out@)), g.emitted())
                == eval_functions(
                old(g).env(),
                old(g).emitted(),
                bodies@,
                vars@.take(i as int),
            ),
        decreases vars.len() - i,
    {
        proof {
            assert(vars@.take(i + 1).drop_last() =~= vars@.take(i as int));
            assert(vars@.take(i + 1).last() == vars@[i as int]);
        }
        let eqs = find_equations(bodies, vars[i].name.as_str());
        proof {
            assert(referred(eqs@).len() == eqs@.len());
        }
        if eqs.len() > 0 {
            match gen_eval_function(g, &vars[i], &eqs) {
                Ok(f) => {
                    let ghost before = functions_model(out@);
                    out.push(f);
                    proof {
                        assert(functions_model(out@) =~= before.push(f@));
                    }
                },
                Err(e) => {
                    proof {
                        lemma_eval_functions_stop(
                            old(g).env(),
                            old(g).emitted(),
                            bodies@,
                            vars@,
                            i + 1,
                        );
                    }
                    return Err(e);
                },
            }
        }
        i += 1;
    }
    proof {
        assert(vars@.take(i as int) =~= vars@);
    }
    Ok(out)
}

/// Nothing emitted yet.
pub open spec fn nothing() -> Emitted {
    Emitted { reduce_fns: Seq::empty(), externals: Seq::empty() }
}

/// The demand-driven program of a system.
pub open spec fn program(system: System) -> Outcome {
    if has_use(system.bodies@) {
        refused("UseEquation has no codegen backend"@)
    } else if system.bodies@.len() == 0 {
        refused("system has no bodies to generate code for"@)
    } else {
        let env = Env {
            backend: Backend::WriteC,
            variables: known_variables(system),
            params: param_list(system.bodies@[0].params@),
        };
        match eval_functions(env, nothing(), system.bodies@, system.outputs@) {
            (Err(f), _) => Err(f),
            (Ok(of_outputs), s1) => match eval_functions(env, s1, system.bodies@, system.locals@) {
                (Err(f), _) => Err(f),
                (Ok(of_locals), s2) => match driver(env.params, system) {
                    Err(f) => Err(f),
                    Ok(d) => Ok(
                        lines_text(
                            program_lines(system, env.params, s2, of_outputs + of_locals, d),
                        ),
                    ),
                },
            },
        }
    }
}

pub open spec fn text_outcome(r: Result<String>) -> Outcome {
    match r {
        Ok(s) => Ok(s@),
        Err(e) => Err(e@),
    }
}

/// Generates the demand-driven program of a system: one self-contained source file.
pub fn generate_system(system: &System) -> (r: Result<String>)
    requires
        system.wf(),
    ensures
        text_outcome(r) == program(*system),
{
    if contains_use(&system.bodies) {
        return Err(unsupported("UseEquation has no codegen backend"));
    }
    if system.bodies.len() == 0 {
        return Err(unsupported("system has no bodies to generate code for"));
    }
    let mut g = Gen {
        backend: Backend::WriteC,
        variables: variable_table(system),
        param_names: param_names_of(&system.bodies[0].params),
        reduce_fns: Vec::new(),
        externals: Vec::new(),
    };
    proof {
        assert(g.emitted().reduce_fns =~= nothing().reduce_fns);
        assert(g.emitted().externals =~= nothing().externals);
    }
    let mut eval_fns = match gen_eval_functions(&mut g, &system.bodies, &system.outputs) {
        Ok(v) => v,
        Err(e) => return Err(e),
    };
    let mut of_locals = match gen_eval_functions(&mut g, &system.bodies, &system.locals) {
        Ok(v) => v,
        Err(e) => return Err(e),
    };
    let ghost first = functions_model(eval_fns@);
    let ghost second = functions_model(of_locals@);
    eval_fns.append(&mut of_locals);
    proof {
        assert(functions_model(eval_fns@) =~= first + second);
    }
    let driver = match gen_driver(&g.param_names, system) {
        Ok(d) => d,
        Err(e) => return Err(e),
    };
    Ok(render_program(system, &g, &eval_fns, &driver))
}

proof fn lemma_flags_allocated(vars: Seq<Variable>, k: int)
    requires
        0 <= k < vars.len(),
        flag_allocs(vars) is Ok,
    ensures
        flag_allocs(vars) matches Ok(s) && s.contains(
            malloc_stmt("_flag_"@ + vars[k].name@, vars[k].domain.ndims, "char"@),
        ),
    decreases vars.len(),
{
    let wanted = malloc_stmt("_flag_"@ + vars[k].name@, vars[k].domain.ndims, "char"@);
    match (flag_allocs(vars.drop_last()), flag_alloc(vars.last())) {
        (Ok(before), Ok(more)) => {
            if k == vars.len() - 1 {
                assert(more[more.len() - 3] == wanted);
            } else {
                assert(vars.drop_last()[k] == vars[k]);
                lemma_flags_allocated(vars.drop_last(), k);
            }
            lemma_within(before, more, wanted);
        },
        _ => {},
    }
}

proof fn lemma_entry_gets_all(
    params: Seq<Seq<char>>,
    system: System,
    validity: Seq<char>,
    locals: Seq<StmtModel>,
    output_flags: Seq<StmtModel>,
    local_flags: Seq<StmtModel>,
    loops: Seq<StmtModel>,
    wanted: StmtModel,
)
    requires
        locals.contains(wanted) || output_flags.contains(wanted) || local_flags.contains(wanted),
    ensures
        until_frees(
            params,
            system,
            validity,
            locals,
            output_flags,
            local_flags,
            loops,
        ).contains(wanted),
{
    let first = index_decls(macro_params(max_dims(system.outputs@) as nat), Seq::empty()) + seq![
        StmtModel::Raw(""@),
        StmtModel::Raw("// Copy arguments to the global variables."@),
    ] + copies(params) + copies(var_names(system.inputs@)) + copies(var_names(system.outputs@))
        + seq![
        StmtModel::Raw(""@),
        StmtModel::Raw("// Check parameter validity."@),
        validity_check(validity),
        StmtModel::Raw(""@),
        StmtModel::Raw("// Allocate memory for local storage."@),
    ];
    let flags = seq![
        StmtModel::Raw(""@),
        StmtModel::Raw("// Allocate and initialize flag variables."@),
    ];
    let outputs = seq![StmtModel::Raw(""@), StmtModel::Raw("// Evaluate all the outputs."@)];
    let frees = seq![StmtModel::Raw(""@), StmtModel::Raw("// Free all allocated memory."@)];
    lemma_within(first, locals, wanted);
    lemma_within(first + locals, flags, wanted);
    lemma_within(first + locals + flags, output_flags, wanted);
    lemma_within(first + locals + flags + output_flags, local_flags, wanted);
    lemma_within(first + locals + flags + output_flags + local_flags, outputs, wanted);
    lemma_within(first + locals + flags + output_flags + local_flags + outputs, loops, wanted);
    lemma_within(
        first + locals + flags + output_flags + local_flags + outputs + loops,
        frees,
        wanted,
    );
}

/// The entry point gives back the memory that it gets: the storage of every local, and the flags of
/// every output and every local.
pub proof fn the_entry_point_frees_what_it_allocates(params: Seq<Seq<char>>, system: System)
    ensures
        driver(params, system) matches Ok(f) ==> {
            &&& forall|k: int|
                0 <= k < system.locals@.len() ==> {
                    let v = #[trigger] system.locals@[k];
                    &&& got_and_given_back(f.body, v.name@, v.domain.ndims, "float"@)
                    &&& got_and_given_back(
                        f.body,
                        "_flag_"@ + v.name@,
                        v.domain.ndims,
                        "char"@,
                    )
                }
            &&& forall|k: int|
                0 <= k < system.outputs@.len() ==> {
                    let v = #[trigger] system.outputs@[k];
                    got_and_given_back(f.body, "_flag_"@ + v.name@, v.domain.ndims, "char"@)
                }
        },
{
    if let Ok(f) = driver(params, system) {
        let validity = system.validity->Ok_0@;
        let locals = local_allocs(system.locals@)->Ok_0;
        let output_flags = flag_allocs(system.outputs@)->Ok_0;
        let local_flags = flag_allocs(system.locals@)->Ok_0;
        let loops = eval_loops(system.outputs@)->Ok_0;
        let head = until_frees(
            params,
            system,
            validity,
            locals,
            output_flags,
            local_flags,
            loops,
        );
        let outs = var_names(system.outputs@);
        let locs = var_names(system.locals@);
        let first = raw_stmts(wrapped("free("@, locs, ");"@));
        let second = raw_stmts(wrapped("free(_flag_"@, outs, ");"@));
        let third = raw_stmts(wrapped("free(_flag_"@, locs, ");"@));
        let tail = first + second + third;
        assert(f.body =~= head + tail);
        reveal_strlit("free(");
        reveal_strlit("_flag_");
        reveal_strlit("free(_flag_");
        assert("free("@ + "_flag_"@ =~= "free(_flag_"@);
        assert("free("@ + Seq::<char>::empty() =~= "free("@);
        assert forall|k: int| 0 <= k < system.locals@.len() implies {
            let v = #[trigger] system.locals@[k];
            &&& got_and_given_back(f.body, v.name@, v.domain.ndims, "float"@)
            &&& got_and_given_back(f.body, "_flag_"@ + v.name@, v.domain.ndims, "char"@)
        } by {
            let v = system.locals@[k];
            assert(locs[k] == v.name@);
            let got = malloc_stmt(v.name@, v.domain.ndims, "float"@);
            lemma_allocated(system.locals@, k);
            lemma_entry_gets_all(
                params,
                system,
                validity,
                locals,
                output_flags,
                local_flags,
                loops,
                got,
            );
            lemma_freed(Seq::empty(), locs, k);
            assert(Seq::<char>::empty() + v.name@ =~= v.name@);
            lemma_within(first, second, free_stmt(v.name@));
            lemma_within(first + second, third, free_stmt(v.name@));
            lemma_in_order(head, tail, v.name@, v.domain.ndims, "float"@);
            let flag = "_flag_"@ + v.name@;
            lemma_flags_allocated(system.locals@, k);
            lemma_entry_gets_all(
                params,
                system,
                validity,
                locals,
                output_flags,
                local_flags,
                loops,
                malloc_stmt(flag, v.domain.ndims, "char"@),
            );
            lemma_freed("_flag_"@, locs, k);
            lemma_within(first + second, third, free_stmt(flag));
            lemma_in_order(head, tail, flag, v.domain.ndims, "char"@);
        }
        assert forall|k: int| 0 <= k < system.outputs@.len() implies {
            let v = #[trigger] system.outputs@[k];
            got_and_given_back(f.body, "_flag_"@ + v.name@, v.domain.ndims, "char"@)
        } by {
            let v = system.outputs@[k];
            assert(outs[k] == v.name@);
            let flag = "_flag_"@ + v.name@;
            lemma_flags_allocated(system.outputs@, k);
            lemma_entry_gets_all(
                params,
                system,
                validity,
                locals,
                output_flags,
                local_flags,
                loops,
                malloc_stmt(flag, v.domain.ndims, "char"@),
            );
            lemma_freed("_flag_"@, outs, k);
            lemma_within(first, second, free_stmt(flag));
            lemma_within(first + second, third, free_stmt(flag));
            lemma_in_order(head, tail, flag, v.domain.ndims, "char"@);
        }
    }
}

/// What the entry point gets memory for: the storage of the locals, and the flags of the outputs and
/// the locals.
pub open spec fn allocated_names(system: System) -> Seq<Seq<char>> {
    let flag = |n: Seq<char>| "_flag_"@ + n;
    var_names(system.locals@) + var_names(system.outputs@).map_values(flag) + var_names(
        system.locals@,
    ).map_values(flag)
}

/// The entry point ends by giving back everything that it gets memory for, each once where the names
/// differ, and nothing else: the arrays of its interface stay with the caller.
pub proof fn the_entry_point_frees_each_allocation_once(
    params: Seq<Seq<char>>,
    system: System,
    name: Seq<char>,
)
    ensures
        driver(params, system) matches Ok(f) ==> {
            let names = allocated_names(system);
            let ends = f.body.len() - names.len();
            &&& ends >= 0
            &&& f.body.skip(ends) == freed(names)
            &&& names.no_duplicates() ==> {
                &&& freed(names).contains(free_stmt(name)) <==> names.contains(name)
                &&& forall|i: int, j: int|
                    0 <= i < names.len() && 0 <= j < names.len() && #[trigger] freed(names)[i]
                        == free_stmt(name) && #[trigger] freed(names)[j] == free_stmt(name) ==> i
                        == j
            }
        },
{
    if let Ok(f) = driver(params, system) {
        let names = allocated_names(system);
        let outs = var_names(system.outputs@);
        let locs = var_names(system.locals@);
        let first = raw_stmts(wrapped("free("@, locs, ");"@));
        let second = raw_stmts(wrapped("free(_flag_"@, outs, ");"@));
        let third = raw_stmts(wrapped("free(_flag_"@, locs, ");"@));
        reveal_strlit("free(");
        reveal_strlit("_flag_");
        reveal_strlit("free(_flag_");
        assert("free("@ + "_flag_"@ =~= "free(_flag_"@);
        assert("free("@ + Seq::<char>::empty() =~= "free("@);
        lemma_freed_all(Seq::empty(), locs);
        lemma_freed_all("_flag_"@, outs);
        lemma_freed_all("_flag_"@, locs);
        assert(locs.map_values(|n: Seq<char>| Seq::<char>::empty() + n) =~= locs) by {
            assert forall|k: int| 0 <= k < locs.len() implies Seq::<char>::empty() + (
            #[trigger] locs[k]) == locs[k] by {
                assert(Seq::<char>::empty() + locs[k] =~= locs[k]);
            }
        }
        assert(outs.map_values(|n: Seq<char>| "_flag_"@ + n) =~= outs.map_values(
            |n: Seq<char>| "_flag_"@ + n,
        ));
        let tail = first + second + third;
        assert(tail =~= freed(names));
        let ends = f.body.len() - names.len();
        assert(f.body.skip(ends) =~= tail);
        if names.no_duplicates() {
            names_are_freed_once(names, name);
        }
    }
}

} // verus!
