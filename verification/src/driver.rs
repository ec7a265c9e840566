//! What the generators share: printing a program line by line, allocating storage, and the
//! parameters of the entry point.
use crate::error::{CodegenError, Failure, Result};
use crate::expr::{bound_failure, isl_bound_err};
use crate::ir::{all_wf, Domain, Variable};
use crate::layout::{
    arith_text, extent, flat_access_macro, flat_size_decls, flat_size_init_stmts,
    flat_total_size_expr, interface_access_macro, interface_ctype, interface_subscripts,
    macro_params, row_major, size_decls, size_inits, FlatBounds,
};
use crate::simplec::{
    append_stmts, assign, params_model, push_param, push_stmt, raw, raw_line, stmts_model, CType,
    Stmt, StmtModel,
};
use crate::text::{cat2, cat3, cat5, cat7, joined, push_text, views};
use vstd::prelude::*;

verus! {

/// Each line followed by a line break.
pub open spec fn lines_text(lines: Seq<Seq<char>>) -> Seq<char>
    decreases lines.len(),
{
    if lines.len() == 0 {
        Seq::empty()
    } else {
        lines_text(lines.drop_last()) + lines.last() + "\n"@
    }
}

pub fn print_lines(lines: &Vec<String>) -> (r: String)
    ensures
        r@ == lines_text(views(lines@)),
{
    let mut out = String::new();
    let mut i: usize = 0;
    proof {
        assert(views(lines@).take(0) =~= Seq::empty());
    }
    while i < lines.len()
        invariant
            i <= lines.len(),
            out@ == lines_text(views(lines@).take(i as int)),
        decreases lines.len() - i,
    {
        proof {
            assert(views(lines@).take(i + 1).drop_last() =~= views(lines@).take(i as int));
        }
        out.append(lines[i].as_str());
        out.append("\n");
        i += 1;
    }
    proof {
        assert(views(lines@).take(i as int) =~= views(lines@));
    }
    out
}

/// Appends a line.
pub fn line(out: &mut Vec<String>, s: &str)
    ensures
        views(final(out)@) == views(old(out)@).push(s@),
{
    push_text(out, s.to_owned());
}

/// Appends a list of lines.
pub fn extend_lines(out: &mut Vec<String>, more: Vec<String>)
    ensures
        views(final(out)@) == views(old(out)@) + views(more@),
{
    let mut more = more;
    let ghost added = more@;
    out.append(&mut more);
    proof {
        assert(views(out@) =~= views(old(out)@) + views(added));
    }
}

pub open spec fn var_names(vars: Seq<Variable>) -> Seq<Seq<char>> {
    Seq::new(vars.len(), |i: int| vars[i].name@)
}

/// `name = _local_name;` for each name.
pub open spec fn copies(names: Seq<Seq<char>>) -> Seq<StmtModel> {
    Seq::new(
        names.len(),
        |i: int| StmtModel::Assign { target: names[i], value: "_local_"@ + names[i] },
    )
}

fn push_copy(body: &mut Vec<Stmt>, name: &str)
    ensures
        stmts_model(final(body)@) == stmts_model(old(body)@).push(
            StmtModel::Assign { target: name@, value: "_local_"@ + name@ },
        ),
{
    push_stmt(body, assign(name.to_owned(), raw(cat2("_local_", name))));
}

/// Appends the copies of parameters.
pub fn push_param_copies(body: &mut Vec<Stmt>, params: &Vec<String>)
    ensures
        stmts_model(final(body)@) == stmts_model(old(body)@) + copies(views(params@)),
{
    let ghost start = stmts_model(body@);
    let ghost target = copies(views(params@));
    let mut i: usize = 0;
    proof {
        assert(start + target.take(0) =~= start);
    }
    while i < params.len()
        invariant
            i <= params.len(),
            target == copies(views(params@)),
            stmts_model(body@) == start + target.take(i as int),
        decreases params.len() - i,
    {
        push_copy(body, params[i].as_str());
        proof {
            assert(start + target.take(i + 1) =~= (start + target.take(i as int)).push(
                target[i as int],
            ));
        }
        i += 1;
    }
    proof {
        assert(target.take(i as int) =~= target);
    }
}

/// Appends the copies of variables.
pub fn push_var_copies(body: &mut Vec<Stmt>, vars: &Vec<Variable>)
    ensures
        stmts_model(final(body)@) == stmts_model(old(body)@) + copies(var_names(vars@)),
{
    let ghost start = stmts_model(body@);
    let ghost target = copies(var_names(vars@));
    let mut i: usize = 0;
    proof {
        assert(start + target.take(0) =~= start);
    }
    while i < vars.len()
        invariant
            i <= vars.len(),
            target == copies(var_names(vars@)),
            stmts_model(body@) == start + target.take(i as int),
        decreases vars.len() - i,
    {
        push_copy(body, vars[i].name.as_str());
        proof {
            assert(start + target.take(i + 1) =~= (start + target.take(i as int)).push(
                target[i as int],
            ));
        }
        i += 1;
    }
    proof {
        assert(target.take(i as int) =~= target);
    }
}

/// `long _local_p` for each parameter.
pub open spec fn scalar_params(params: Seq<Seq<char>>) -> Seq<(CType, Seq<char>)> {
    Seq::new(params.len(), |i: int| (CType::Long, "_local_"@ + params[i]))
}

/// A pointer chain of the variable's dimensionality for each variable.
pub open spec fn array_params(vars: Seq<Variable>) -> Seq<(CType, Seq<char>)> {
    Seq::new(
        vars.len(),
        |i: int| (interface_type(vars[i].domain.ndims), "_local_"@ + vars[i].name@),
    )
}

pub open spec fn interface_type(ndims: u32) -> CType {
    CType::Ptr(Box::new(CType::Float), if ndims == 0 { 1 } else { ndims })
}

/// The parameters of a system's entry point.
pub open spec fn entry_params(
    params: Seq<Seq<char>>,
    inputs: Seq<Variable>,
    outputs: Seq<Variable>,
) -> Seq<(CType, Seq<char>)> {
    scalar_params(params) + array_params(inputs) + array_params(outputs)
}

fn push_array_params(list: &mut Vec<(CType, String)>, vars: &Vec<Variable>)
    ensures
        params_model(final(list)@) == params_model(old(list)@) + array_params(vars@),
{
    let ghost start = params_model(list@);
    let ghost target = array_params(vars@);
    let mut i: usize = 0;
    proof {
        assert(start + target.take(0) =~= start);
    }
    while i < vars.len()
        invariant
            i <= vars.len(),
            target == array_params(vars@),
            params_model(list@) == start + target.take(i as int),
        decreases vars.len() - i,
    {
        let ty = interface_ctype(CType::Float, vars[i].domain.ndims);
        push_param(list, ty, cat2("_local_", vars[i].name.as_str()));
        proof {
            assert(start + target.take(i + 1) =~= (start + target.take(i as int)).push(
                target[i as int],
            ));
        }
        i += 1;
    }
    proof {
        assert(target.take(i as int) =~= target);
    }
}

pub fn entry_params_list(params: &Vec<String>, inputs: &Vec<Variable>, outputs: &Vec<Variable>) -> (r:
    Vec<(CType, String)>)
    ensures
        params_model(r@) == entry_params(views(params@), inputs@, outputs@),
{
    let mut list: Vec<(CType, String)> = Vec::new();
    let mut i: usize = 0;
    while i < params.len()
        invariant
            i <= params.len(),
            params_model(list@) =~= scalar_params(views(params@)).take(i as int),
        decreases params.len() - i,
    {
        push_param(&mut list, CType::Long, cat2("_local_", params[i].as_str()));
        i += 1;
    }
    proof {
        assert(scalar_params(views(params@)).take(i as int) =~= scalar_params(views(params@)));
    }
    push_array_params(&mut list, inputs);
    push_array_params(&mut list, outputs);
    list
}

/// The bounds of the first `n` dimensions, or the message of the first failure, the lowest value of
/// a dimension before its highest.
pub open spec fn bounds_upto(d: Domain, n: nat) -> core::result::Result<
    (Seq<Seq<char>>, Seq<Seq<char>>),
    Seq<char>,
>
    decreases n,
{
    if n == 0 {
        Ok((Seq::empty(), Seq::empty()))
    } else {
        match bounds_upto(d, (n - 1) as nat) {
            Err(m) => Err(m),
            Ok((mins, maxs)) => match (d.mins@[n - 1], d.maxs@[n - 1]) {
                (Err(e), _) => Err(e.message@),
                (Ok(_), Err(e)) => Err(e.message@),
                (Ok(lo), Ok(hi)) => Ok((mins.push(lo@), maxs.push(hi@))),
            },
        }
    }
}

proof fn lemma_bounds_stop(d: Domain, n: nat, m: nat)
    requires
        n <= m,
        bounds_upto(d, n) is Err,
    ensures
        bounds_upto(d, m) == bounds_upto(d, n),
    decreases m,
{
    if n < m {
        lemma_bounds_stop(d, n, (m - 1) as nat);
    }
}

impl FlatBounds {
    /// The bounds of a domain.
    pub fn compute(domain: &Domain) -> (r: Result<FlatBounds>)
        requires
            domain.wf(),
        ensures
            match r {
                Ok(b) => bounds_upto(*domain, domain.ndims as nat) == Ok::<
                    (Seq<Seq<char>>, Seq<Seq<char>>),
                    Seq<char>,
                >((views(b.mins@), views(b.maxs@))) && b.mins@.len() == domain.ndims && b.maxs@.len()
                    == domain.ndims,
                Err(e) => e matches CodegenError::Isl(e) && bounds_upto(*domain, domain.ndims as nat)
                    == Err::<(Seq<Seq<char>>, Seq<Seq<char>>), Seq<char>>(e.message@),
            },
    {
        let mut mins: Vec<String> = Vec::new();
        let mut maxs: Vec<String> = Vec::new();
        let mut i: usize = 0;
        proof {
            assert(views(mins@) =~= Seq::empty());
            assert(views(maxs@) =~= Seq::empty());
        }
        while i < domain.mins.len()
            invariant
                i <= domain.mins.len(),
                domain.wf(),
                mins@.len() == i,
                maxs@.len() == i,
                bounds_upto(*domain, i as nat) == Ok::<(Seq<Seq<char>>, Seq<Seq<char>>), Seq<char>>(
                    (views(mins@), views(maxs@)),
                ),
            decreases domain.mins.len() - i,
        {
            let lo = match &domain.mins[i] {
                Ok(lo) => lo,
                Err(e) => {
                    proof {
                        lemma_bounds_stop(*domain, (i + 1) as nat, domain.ndims as nat);
                    }
                    return Err(CodegenError::Isl(e.clone()));
                },
            };
            let hi = match &domain.maxs[i] {
                Ok(hi) => hi,
                Err(e) => {
                    proof {
                        lemma_bounds_stop(*domain, (i + 1) as nat, domain.ndims as nat);
                    }
                    return Err(CodegenError::Isl(e.clone()));
                },
            };
            push_text(&mut mins, lo.clone());
            push_text(&mut maxs, hi.clone());
            i += 1;
        }
        Ok(FlatBounds { mins, maxs })
    }
}

/// Lines as statements.
pub open spec fn raw_stmts(lines: Seq<Seq<char>>) -> Seq<StmtModel> {
    Seq::new(lines.len(), |i: int| StmtModel::Raw(lines[i]))
}

pub type StmtsOutcome = core::result::Result<Seq<StmtModel>, Failure>;

pub open spec fn stmts_outcome(r: Result<Vec<Stmt>>) -> StmtsOutcome {
    match r {
        Ok(v) => Ok(stmts_model(v@)),
        Err(e) => Err(e@),
    }
}

/// The statement that gets the memory of a flat variable.
pub open spec fn malloc_stmt(name: Seq<char>, ndims: u32, elem: Seq<char>) -> StmtModel {
    StmtModel::Assign {
        target: name,
        value: "("@ + elem + "*)(malloc((sizeof("@ + elem + ")) * ("@ + arith_text(
            extent(name, 0, ndims as nat),
        ) + ")))"@,
    }
}

/// The statement that gives memory back.
pub open spec fn free_stmt(name: Seq<char>) -> StmtModel {
    StmtModel::Raw("free("@ + name + ");"@)
}

/// Memory is got for `name`, and given back later on.
pub open spec fn got_and_given_back(
    body: Seq<StmtModel>,
    name: Seq<char>,
    ndims: u32,
    elem: Seq<char>,
) -> bool {
    exists|i: int, j: int|
        0 <= i < j < body.len() && #[trigger] body[i] == malloc_stmt(name, ndims, elem)
            && #[trigger] body[j] == free_stmt(name)
}

/// Allocates a flat array: the extents first, then the memory, checked.
pub open spec fn flat_alloc(name: Seq<char>, d: Domain, elem: Seq<char>) -> StmtsOutcome {
    match bounds_upto(d, d.ndims as nat) {
        Err(m) => Err(bound_failure("sizing storage for '"@ + name + "'"@, m)),
        Ok((mins, maxs)) => Ok(
            raw_stmts(size_inits(name, mins, maxs, d.ndims as nat)) + seq![
                malloc_stmt(name, d.ndims, elem),
                StmtModel::Raw("mallocCheck("@ + name + ",\""@ + name + "\");"@),
            ],
        ),
    }
}

pub fn flat_alloc_stmts(name: &str, domain: &Domain, elem_ctype: &str) -> (r: Result<Vec<Stmt>>)
    requires
        domain.wf(),
    ensures
        stmts_outcome(r) == flat_alloc(name@, *domain, elem_ctype@),
{
    let bounds = match FlatBounds::compute(domain) {
        Ok(b) => b,
        Err(CodegenError::Isl(e)) => {
            let context = cat3("sizing storage for '", name, "'");
            return Err(isl_bound_err(context.as_str(), &e));
        },
        Err(e) => return Err(e),
    };
    let inits = flat_size_init_stmts(name, &bounds);
    let mut stmts: Vec<Stmt> = Vec::new();
    let mut i: usize = 0;
    while i < inits.len()
        invariant
            i <= inits.len(),
            stmts_model(stmts@) =~= raw_stmts(views(inits@)).take(i as int),
        decreases inits.len() - i,
    {
        push_stmt(&mut stmts, raw_line(inits[i].as_str()));
        i += 1;
    }
    proof {
        assert(raw_stmts(views(inits@)).take(i as int) =~= raw_stmts(views(inits@)));
    }
    let total = flat_total_size_expr(name, domain.ndims);
    let alloc = cat7(
        "(",
        elem_ctype,
        "*)(malloc((sizeof(",
        elem_ctype,
        ")) * (",
        total.as_str(),
        ")))",
    );
    push_stmt(&mut stmts, assign(name.to_owned(), raw(alloc)));
    push_stmt(&mut stmts, Stmt::Raw(cat5("mallocCheck(", name, ",\"", name, "\");")));
    proof {
        assert(stmts_model(stmts@) =~= flat_alloc(name@, *domain, elem_ctype@)->Ok_0);
    }
    Ok(stmts)
}

/// The allocation of the storage of each variable, one after another.
pub open spec fn local_allocs(vars: Seq<Variable>) -> StmtsOutcome
    decreases vars.len(),
{
    if vars.len() == 0 {
        Ok(Seq::empty())
    } else {
        match local_allocs(vars.drop_last()) {
            Err(f) => Err(f),
            Ok(before) => match flat_alloc(vars.last().name@, vars.last().domain, "float"@) {
                Err(f) => Err(f),
                Ok(more) => Ok(before + more),
            },
        }
    }
}

proof fn lemma_local_allocs_stop(vars: Seq<Variable>, n: int)
    requires
        0 <= n <= vars.len(),
        local_allocs(vars.take(n)) is Err,
    ensures
        local_allocs(vars) == local_allocs(vars.take(n)),
    decreases vars.len() - n,
{
    if n < vars.len() {
        assert(vars.take(n + 1).drop_last() =~= vars.take(n));
        lemma_local_allocs_stop(vars, n + 1);
    } else {
        assert(vars.take(n) =~= vars);
    }
}

pub fn local_alloc_stmts(vars: &Vec<Variable>) -> (r: Result<Vec<Stmt>>)
    requires
        all_wf(vars@),
    ensures
        stmts_outcome(r) == local_allocs(vars@),
{
    let mut out: Vec<Stmt> = Vec::new();
    let mut i: usize = 0;
    proof {
        assert(vars@.take(0) =~= Seq::empty());
        assert(stmts_model(out@) =~= Seq::empty());
    }
    while i < vars.len()
        invariant
            i <= vars.len(),
            all_wf(vars@),
            local_allocs(vars@.take(i as int)) == Ok::<Seq<StmtModel>, Failure>(stmts_model(out@)),
        decreases vars.len() - i,
    {
        proof {
            assert(vars@.take(i + 1).drop_last() =~= vars@.take(i as int));
            assert(vars@.take(i + 1).last() == vars@[i as int]);
        }
        match flat_alloc_stmts(vars[i].name.as_str(), &vars[i].domain, "float") {
            Ok(more) => append_stmts(&mut out, more),
            Err(e) => {
                proof {
                    lemma_local_allocs_stop(vars@, i + 1);
                }
                return Err(e);
            },
        }
        i += 1;
    }
    proof {
        assert(vars@.take(i as int) =~= vars@);
    }
    Ok(out)
}

/// `<before><name><after>` for each name.
pub open spec fn wrapped(before: Seq<char>, names: Seq<Seq<char>>, after: Seq<char>) -> Seq<Seq<char>> {
    Seq::new(names.len(), |i: int| before + names[i] + after)
}

pub fn wrap_names(before: &str, vars: &Vec<Variable>, after: &str) -> (r: Vec<String>)
    ensures
        views(r@) == wrapped(before@, var_names(vars@), after@),
{
    let mut out: Vec<String> = Vec::new();
    let mut i: usize = 0;
    while i < vars.len()
        invariant
            i <= vars.len(),
            views(out@) =~= wrapped(before@, var_names(vars@), after@).take(i as int),
        decreases vars.len() - i,
    {
        push_text(&mut out, cat3(before, vars[i].name.as_str(), after));
        i += 1;
    }
    proof {
        assert(wrapped(before@, var_names(vars@), after@).take(i as int) =~= wrapped(
            before@,
            var_names(vars@),
            after@,
        ));
    }
    out
}

pub fn wrap_texts(before: &str, names: &Vec<String>, after: &str) -> (r: Vec<String>)
    ensures
        views(r@) == wrapped(before@, views(names@), after@),
{
    let mut out: Vec<String> = Vec::new();
    let mut i: usize = 0;
    while i < names.len()
        invariant
            i <= names.len(),
            views(out@) =~= wrapped(before@, views(names@), after@).take(i as int),
        decreases names.len() - i,
    {
        push_text(&mut out, cat3(before, names[i].as_str(), after));
        i += 1;
    }
    proof {
        assert(wrapped(before@, views(names@), after@).take(i as int) =~= wrapped(
            before@,
            views(names@),
            after@,
        ));
    }
    out
}

/// Appends lines as statements.
pub fn push_raw_lines(body: &mut Vec<Stmt>, lines: &Vec<String>)
    ensures
        stmts_model(final(body)@) == stmts_model(old(body)@) + raw_stmts(views(lines@)),
{
    let ghost start = stmts_model(body@);
    let ghost target = raw_stmts(views(lines@));
    let mut i: usize = 0;
    proof {
        assert(start + target.take(0) =~= start);
    }
    while i < lines.len()
        invariant
            i <= lines.len(),
            target == raw_stmts(views(lines@)),
            stmts_model(body@) == start + target.take(i as int),
        decreases lines.len() - i,
    {
        push_stmt(body, raw_line(lines[i].as_str()));
        proof {
            assert(start + target.take(i + 1) =~= (start + target.take(i as int)).push(
                target[i as int],
            ));
        }
        i += 1;
    }
    proof {
        assert(target.take(i as int) =~= target);
    }
}

/// The headers and macros every generated program begins with.
pub open spec fn preamble() -> Seq<Seq<char>> {
    seq![
        "#include <float.h>"@,
        "#include <limits.h>"@,
        "#include <math.h>"@,
        "#include <stdbool.h>"@,
        "#include <stdio.h>"@,
        "#include <stdlib.h>"@,
        "#include <string.h>"@,
        ""@,
        "// Function Macros"@,
        "#define ceild(n,d) ((int)ceil(((double)(n))/((double)(d))))"@,
        "#define floord(n,d) ((int)floor(((double)(n))/((double)(d))))"@,
        "#define div(a,b) (ceild((a),(b)))"@,
        "#define max(a,b) (((a)>(b))?(a):(b))"@,
        "#define min(a,b) (((a)<(b))?(a):(b))"@,
        "#define mallocCheck(v,s) if ((v) == NULL) { printf(\"Failed to allocate memory for variable: %s\\n\", (s)); exit(-1); }"@,
        ""@,
    ]
}

pub fn push_preamble(out: &mut Vec<String>)
    ensures
        views(final(out)@) == views(old(out)@) + preamble(),
{
    let ghost start = views(out@);
    line(out, "#include <float.h>");
    line(out, "#include <limits.h>");
    line(out, "#include <math.h>");
    line(out, "#include <stdbool.h>");
    line(out, "#include <stdio.h>");
    line(out, "#include <stdlib.h>");
    line(out, "#include <string.h>");
    line(out, "");
    line(out, "// Function Macros");
    line(out, "#define ceild(n,d) ((int)ceil(((double)(n))/((double)(d))))");
    line(out, "#define floord(n,d) ((int)floor(((double)(n))/((double)(d))))");
    line(out, "#define div(a,b) (ceild((a),(b)))");
    line(out, "#define max(a,b) (((a)>(b))?(a):(b))");
    line(out, "#define min(a,b) (((a)<(b))?(a):(b))");
    line(
        out,
        "#define mallocCheck(v,s) if ((v) == NULL) { printf(\"Failed to allocate memory for variable: %s\\n\", (s)); exit(-1); }",
    );
    line(out, "");
    proof {
        assert(views(out@) =~= start + preamble());
    }
}

/// The declarations of external functions, if there are any.
pub open spec fn external_decls(names: Seq<Seq<char>>) -> Seq<Seq<char>> {
    if names.len() == 0 {
        Seq::empty()
    } else {
        seq!["// External Function Declarations"@] + wrapped("extern float "@, names, "();"@) + seq![
            ""@,
        ]
    }
}

pub fn push_external_decls(out: &mut Vec<String>, names: &Vec<String>)
    ensures
        views(final(out)@) == views(old(out)@) + external_decls(views(names@)),
{
    let ghost start = views(out@);
    if names.len() > 0 {
        line(out, "// External Function Declarations");
        extend_lines(out, wrap_texts("extern float ", names, "();"));
        line(out, "");
    }
    proof {
        assert(views(out@) =~= start + external_decls(views(names@)));
    }
}

/// `static float** X;` for each interface variable.
pub open spec fn interface_decls(vars: Seq<Variable>) -> Seq<Seq<char>> {
    Seq::new(
        vars.len(),
        |i: int|
            "static "@ + interface_type(vars[i].domain.ndims).spelling() + " "@ + vars[i].name@ + ";"@,
    )
}

pub fn interface_decl_lines(vars: &Vec<Variable>) -> (r: Vec<String>)
    ensures
        views(r@) == interface_decls(vars@),
{
    let mut out: Vec<String> = Vec::new();
    let mut i: usize = 0;
    while i < vars.len()
        invariant
            i <= vars.len(),
            views(out@) =~= interface_decls(vars@).take(i as int),
        decreases vars.len() - i,
    {
        let ty = interface_ctype(CType::Float, vars[i].domain.ndims).to_text();
        push_text(&mut out, cat5("static ", ty.as_str(), " ", vars[i].name.as_str(), ";"));
        i += 1;
    }
    proof {
        assert(interface_decls(vars@).take(i as int) =~= interface_decls(vars@));
    }
    out
}

/// The pointer and the extent globals of each flat variable, which is called by its own name behind
/// `prefix`.
pub open spec fn flat_decls(ty: Seq<char>, prefix: Seq<char>, vars: Seq<Variable>) -> Seq<Seq<char>>
    decreases vars.len(),
{
    if vars.len() == 0 {
        Seq::empty()
    } else {
        let name = prefix + vars.last().name@;
        flat_decls(ty, prefix, vars.drop_last()) + seq!["static "@ + ty + "* "@ + name + ";"@]
            + size_decls(name, vars.last().domain.ndims as nat)
    }
}

pub fn push_flat_decls(out: &mut Vec<String>, ty: &str, prefix: &str, vars: &Vec<Variable>)
    ensures
        views(final(out)@) == views(old(out)@) + flat_decls(ty@, prefix@, vars@),
{
    let ghost start = views(out@);
    let mut i: usize = 0;
    proof {
        assert(vars@.take(0) =~= Seq::empty());
        assert(start + Seq::<Seq<char>>::empty() =~= start);
    }
    while i < vars.len()
        invariant
            i <= vars.len(),
            views(out@) == start + flat_decls(ty@, prefix@, vars@.take(i as int)),
        decreases vars.len() - i,
    {
        let ghost before = flat_decls(ty@, prefix@, vars@.take(i as int));
        let name = cat2(prefix, vars[i].name.as_str());
        push_text(out, cat5("static ", ty, "* ", name.as_str(), ";"));
        extend_lines(out, flat_size_decls(name.as_str(), vars[i].domain.ndims));
        proof {
            assert(vars@.take(i + 1).drop_last() =~= vars@.take(i as int));
            assert(views(out@) =~= start + flat_decls(ty@, prefix@, vars@.take(i + 1)));
        }
        i += 1;
    }
    proof {
        assert(vars@.take(i as int) =~= vars@);
    }
}

/// The text of an access macro of an interface variable.
pub open spec fn interface_macro(name: Seq<char>, ndims: nat) -> Seq<char> {
    "#define "@ + name + "("@ + joined(macro_params(ndims), ","@) + ") "@ + name
        + interface_subscripts(ndims)
}

/// The text of an access macro of a flat variable.
pub open spec fn flat_macro(name: Seq<char>, ndims: nat) -> Seq<char> {
    "#define "@ + name + "("@ + joined(macro_params(ndims), ","@) + ") "@ + name + "["@ + arith_text(
        row_major(name, macro_params(ndims)),
    ) + "]"@
}

pub open spec fn interface_macros(vars: Seq<Variable>) -> Seq<Seq<char>> {
    Seq::new(vars.len(), |i: int| interface_macro(vars[i].name@, vars[i].domain.ndims as nat))
}

pub open spec fn flat_macros(prefix: Seq<char>, vars: Seq<Variable>) -> Seq<Seq<char>> {
    Seq::new(vars.len(), |i: int| flat_macro(prefix + vars[i].name@, vars[i].domain.ndims as nat))
}

pub fn interface_macro_lines(vars: &Vec<Variable>) -> (r: Vec<String>)
    ensures
        views(r@) == interface_macros(vars@),
{
    let mut out: Vec<String> = Vec::new();
    let mut i: usize = 0;
    while i < vars.len()
        invariant
            i <= vars.len(),
            views(out@) =~= interface_macros(vars@).take(i as int),
        decreases vars.len() - i,
    {
        push_text(&mut out, interface_access_macro(vars[i].name.as_str(), vars[i].domain.ndims));
        i += 1;
    }
    proof {
        assert(interface_macros(vars@).take(i as int) =~= interface_macros(vars@));
    }
    out
}

pub fn flat_macro_lines(prefix: &str, vars: &Vec<Variable>) -> (r: Vec<String>)
    ensures
        views(r@) == flat_macros(prefix@, vars@),
{
    let mut out: Vec<String> = Vec::new();
    let mut i: usize = 0;
    while i < vars.len()
        invariant
            i <= vars.len(),
            views(out@) =~= flat_macros(prefix@, vars@).take(i as int),
        decreases vars.len() - i,
    {
        let name = cat2(prefix, vars[i].name.as_str());
        push_text(&mut out, flat_access_macro(name.as_str(), vars[i].domain.ndims));
        i += 1;
    }
    proof {
        assert(flat_macros(prefix@, vars@).take(i as int) =~= flat_macros(prefix@, vars@));
    }
    out
}

/// The lines that undefine the function macros.
pub open spec fn undefined_macros() -> Seq<Seq<char>> {
    seq![
        "#undef ceild"@,
        "#undef floord"@,
        "#undef div"@,
        "#undef max"@,
        "#undef min"@,
        "#undef mallocCheck"@,
    ]
}

pub fn push_undefined_macros(out: &mut Vec<String>)
    ensures
        views(final(out)@) == views(old(out)@) + undefined_macros(),
{
    let ghost start = views(out@);
    line(out, "#undef ceild");
    line(out, "#undef floord");
    line(out, "#undef div");
    line(out, "#undef max");
    line(out, "#undef min");
    line(out, "#undef mallocCheck");
    proof {
        assert(views(out@) =~= start + undefined_macros());
    }
}

/// What is found before a place and what is found from it on stand in that order.
pub proof fn lemma_in_order(
    head: Seq<StmtModel>,
    tail: Seq<StmtModel>,
    name: Seq<char>,
    ndims: u32,
    elem: Seq<char>,
)
    requires
        head.contains(malloc_stmt(name, ndims, elem)),
        tail.contains(free_stmt(name)),
    ensures
        got_and_given_back(head + tail, name, ndims, elem),
{
    let i = choose|i: int| 0 <= i < head.len() && head[i] == malloc_stmt(name, ndims, elem);
    let j = choose|j: int| 0 <= j < tail.len() && tail[j] == free_stmt(name);
    let all = head + tail;
    assert(all[i] == malloc_stmt(name, ndims, elem));
    assert(all[head.len() + j] == free_stmt(name));
}

pub proof fn lemma_within(a: Seq<StmtModel>, b: Seq<StmtModel>, s: StmtModel)
    ensures
        a.contains(s) || b.contains(s) ==> (a + b).contains(s),
{
    if a.contains(s) {
        let i = choose|i: int| 0 <= i < a.len() && a[i] == s;
        assert((a + b)[i] == s);
    } else if b.contains(s) {
        let i = choose|i: int| 0 <= i < b.len() && b[i] == s;
        assert((a + b)[a.len() + i] == s);
    }
}

/// Getting storage for a list of variables gets it for each of them.
pub proof fn lemma_allocated(vars: Seq<Variable>, k: int)
    requires
        0 <= k < vars.len(),
        local_allocs(vars) is Ok,
    ensures
        local_allocs(vars) matches Ok(s) && s.contains(
            malloc_stmt(vars[k].name@, vars[k].domain.ndims, "float"@),
        ),
    decreases vars.len(),
{
    let wanted = malloc_stmt(vars[k].name@, vars[k].domain.ndims, "float"@);
    match (local_allocs(vars.drop_last()), flat_alloc(vars.last().name@, vars.last().domain, "float"@)) {
        (Ok(before), Ok(more)) => {
            if k == vars.len() - 1 {
                assert(more[more.len() - 2] == wanted);
            } else {
                assert(vars.drop_last()[k] == vars[k]);
                lemma_allocated(vars.drop_last(), k);
            }
            lemma_within(before, more, wanted);
        },
        _ => {},
    }
}

/// The statements that give memory back hold one for each name.
pub proof fn lemma_freed(prefix: Seq<char>, names: Seq<Seq<char>>, k: int)
    requires
        0 <= k < names.len(),
    ensures
        raw_stmts(wrapped("free("@ + prefix, names, ");"@)).contains(free_stmt(prefix + names[k])),
{
    let texts = wrapped("free("@ + prefix, names, ");"@);
    assert(texts[k] =~= "free("@ + (prefix + names[k]) + ");"@);
    assert(raw_stmts(texts)[k] == free_stmt(prefix + names[k]));
}

/// The statements that give back what the names hold.
pub open spec fn freed(names: Seq<Seq<char>>) -> Seq<StmtModel> {
    Seq::new(names.len(), |i: int| free_stmt(names[i]))
}

/// Among the statements that give memory back, each of several names has one, and no other name has
/// any.
pub proof fn names_are_freed_once(names: Seq<Seq<char>>, name: Seq<char>)
    requires
        names.no_duplicates(),
    ensures
        freed(names).contains(free_stmt(name)) <==> names.contains(name),
        forall|i: int, j: int|
            0 <= i < names.len() && 0 <= j < names.len() && #[trigger] freed(names)[i] == free_stmt(
                name,
            ) && #[trigger] freed(names)[j] == free_stmt(name) ==> i == j,
{
    assert forall|i: int| 0 <= i < names.len() && #[trigger] freed(names)[i] == free_stmt(
        name,
    ) implies names[i] == name by {
        lemma_free_tells_names_apart(names[i], name);
    }
    if names.contains(name) {
        let i = choose|i: int| 0 <= i < names.len() && names[i] == name;
        assert(freed(names)[i] == free_stmt(name));
    }
    if freed(names).contains(free_stmt(name)) {
        let i = choose|i: int| 0 <= i < freed(names).len() && freed(names)[i] == free_stmt(name);
        assert(names[i] == name);
    }
}

proof fn lemma_free_tells_names_apart(a: Seq<char>, b: Seq<char>)
    requires
        free_stmt(a) == free_stmt(b),
    ensures
        a == b,
{
    reveal_strlit("free(");
    reveal_strlit(");");
    let x = "free("@ + a + ");"@;
    let y = "free("@ + b + ");"@;
    assert(x == y);
    assert(x.len() == a.len() + 7 && y.len() == b.len() + 7);
    assert(x.subrange(5, 5 + a.len() as int) =~= a);
    assert(y.subrange(5, 5 + b.len() as int) =~= b);
}

/// The statements with a common start and end around each name.
pub proof fn lemma_freed_all(prefix: Seq<char>, names: Seq<Seq<char>>)
    ensures
        raw_stmts(wrapped("free("@ + prefix, names, ");"@)) == freed(
            names.map_values(|n: Seq<char>| prefix + n),
        ),
{
    let out = names.map_values(|n: Seq<char>| prefix + n);
    let texts = wrapped("free("@ + prefix, names, ");"@);
    assert forall|k: int| 0 <= k < names.len() implies raw_stmts(texts)[k] == freed(out)[k] by {
        assert(texts[k] =~= "free("@ + (prefix + names[k]) + ");"@);
    }
    assert(raw_stmts(texts) =~= freed(out));
}

} // verus!
