//! A test harness for a generated program: a `main` that reads the parameters from its arguments,
//! allocates every input and output, calls the entry point and frees everything again.
use crate::driver::{
    entry_params, entry_params_list, interface_type, line, lines_text, print_lines, raw_stmts,
    wrap_texts, wrapped,
};
use crate::error::{CodegenError, Failure, Result};
use crate::expr::{param_list, param_names_of};
use crate::ir::{all_wf, Domain, System, Variable};
use crate::simplec::{
    append_stmts, assign, exprs_text, one_stmt, push_expr, push_stmt, raw, raw_line, stmts_model,
    stmts_text, write_stmts, CType, Function, FunctionModel, Stmt, StmtModel, Expr as CExpr,
};
use crate::text::{
    cat2, cat3, cat4, cat5, cat7, dec, dec_u32, dec_usize, join, joined, push_text, views,
};
use crate::writec::{name_args, text_outcome};
use vstd::prelude::*;

verus! {

/// `[p]` for each parameter, and how the program is called.
pub open spec fn usage_text(params: Seq<Seq<char>>) -> Seq<char> {
    "printf(\"alphac wrapper: Usage: %s "@ + joined(wrapped("["@, params, "]"@), " "@)
        + "\\n\", argv[0]);"@
}

/// The statement that tells how the program is called.
pub fn usage_hint(param_names: &Vec<String>) -> (r: Stmt)
    ensures
        r@ == StmtModel::Raw(usage_text(views(param_names@))),
{
    let list = join(&wrap_texts("[", param_names, "]"), " ");
    Stmt::Raw(
        cat3("printf(\"alphac wrapper: Usage: %s ", list.as_str(), "\\n\", argv[0]);"),
    )
}

/// The first `n` extents: one more than the highest index of each dimension, or the first failure.
pub open spec fn extents_upto(d: Domain, n: nat) -> core::result::Result<Seq<Seq<char>>, Failure>
    decreases n,
{
    if n == 0 {
        Ok(Seq::empty())
    } else {
        match extents_upto(d, (n - 1) as nat) {
            Err(f) => Err(f),
            Ok(before) => match d.maxs@[n - 1] {
                Err(e) => Err(Failure::Isl(e.message@)),
                Ok(hi) => Ok(before.push("(("@ + hi@ + ") + 1)"@)),
            },
        }
    }
}

/// The extents of an interface variable; a 0-dimensional one has the single extent `1`.
pub open spec fn extents(d: Domain) -> core::result::Result<Seq<Seq<char>>, Failure> {
    if d.ndims == 0 {
        Ok(seq!["1"@])
    } else {
        extents_upto(d, d.ndims as nat)
    }
}

proof fn lemma_extents_stop(d: Domain, n: nat, m: nat)
    requires
        n <= m,
        extents_upto(d, n) is Err,
    ensures
        extents_upto(d, m) == extents_upto(d, n),
    decreases m,
{
    if n < m {
        lemma_extents_stop(d, n, (m - 1) as nat);
    }
}

pub fn dim_extents(domain: &Domain) -> (r: Result<Vec<String>>)
    requires
        domain.wf(),
    ensures
        match r {
            Ok(v) => extents(*domain) == Ok::<Seq<Seq<char>>, Failure>(views(v@)) && v@.len() > 0
                && v@.len() <= u32::MAX && v@.len() == (if domain.ndims == 0 {
                1
            } else {
                domain.ndims as int
            }),
            Err(e) => extents(*domain) == Err::<Seq<Seq<char>>, Failure>(e@),
        },
{
    let mut out: Vec<String> = Vec::new();
    if domain.ndims == 0 {
        push_text(&mut out, "1".to_owned());
        proof {
            assert(views(out@) =~= seq!["1"@]);
        }
        return Ok(out);
    }
    let mut i: usize = 0;
    proof {
        assert(views(out@) =~= Seq::empty());
    }
    while i < domain.maxs.len()
        invariant
            i <= domain.maxs.len(),
            domain.wf(),
            domain.ndims > 0,
            out@.len() == i,
            extents_upto(*domain, i as nat) == Ok::<Seq<Seq<char>>, Failure>(views(out@)),
        decreases domain.maxs.len() - i,
    {
        match &domain.maxs[i] {
            Ok(hi) => push_text(&mut out, cat3("((", hi.as_str(), ") + 1)")),
            Err(e) => {
                proof {
                    lemma_extents_stop(*domain, (i + 1) as nat, domain.ndims as nat);
                }
                return Err(CodegenError::Isl(e.clone()));
            },
        }
        i += 1;
    }
    Ok(out)
}

/// The product of extents.
pub open spec fn extent_product(exts: Seq<Seq<char>>) -> Seq<char> {
    if exts.len() == 0 {
        "1"@
    } else {
        "("@ + joined(exts, " * "@) + ")"@
    }
}

/// The product of the first `n` extents.
pub fn extents_product(exts: &Vec<String>, n: usize) -> (r: String)
    requires
        n <= exts.len(),
    ensures
        r@ == extent_product(views(exts@).take(n as int)),
{
    if n == 0 {
        return "1".to_owned();
    }
    let mut part: Vec<String> = Vec::new();
    let mut i: usize = 0;
    while i < n
        invariant
            i <= n <= exts.len(),
            views(part@) =~= views(exts@).take(i as int),
        decreases n - i,
    {
        push_text(&mut part, exts[i].clone());
        i += 1;
    }
    cat3("(", join(&part, " * ").as_str(), ")")
}

/// The variable that holds one level of a pointer chain: the topmost one is the variable itself.
pub open spec fn level_text(name: Seq<char>, level: nat, top: nat) -> Seq<char> {
    if level == top {
        name
    } else {
        "_"@ + name + "_l"@ + dec(level)
    }
}

pub fn level_name(var_name: &str, level: u32, top_level: u32) -> (r: String)
    ensures
        r@ == level_text(var_name@, level as nat, top_level as nat),
{
    if level == top_level {
        var_name.to_owned()
    } else {
        cat4("_", var_name, "_l", dec_u32(level).as_str())
    }
}

/// The exit that is taken where an allocation failed.
pub open spec fn alloc_check(var: Seq<char>, source: Seq<char>) -> StmtModel {
    StmtModel::If {
        cond: var + " == NULL"@,
        then_branch: seq![
            StmtModel::Raw(
                "fprintf(stderr, \"alphac wrapper: failed to allocate memory for '"@ + source
                    + "'\\n\");"@,
            ),
            StmtModel::Return(Some("1"@)),
        ],
        else_branch: seq![],
    }
}

pub fn alloc_check_stmt(var_name: &str, source_var: &str) -> (r: Stmt)
    ensures
        r@ == alloc_check(var_name@, source_var@),
{
    let mut then_branch = one_stmt(
        Stmt::Raw(
            cat3(
                "fprintf(stderr, \"alphac wrapper: failed to allocate memory for '",
                source_var,
                "'\\n\");",
            ),
        ),
    );
    push_stmt(&mut then_branch, Stmt::Return(Some(raw("1".to_owned()))));
    let else_branch: Vec<Stmt> = Vec::new();
    proof {
        assert(stmts_model(then_branch@) =~= alloc_check(var_name@, source_var@)->then_branch);
        assert(stmts_model(else_branch@) =~= seq![]);
    }
    Stmt::If { cond: raw(cat2(var_name, " == NULL")), then_branch, else_branch }
}

/// `for (_i = 0; _i < size; _i += 1) target = value;`
pub open spec fn counting_loop(size: Seq<char>, target: Seq<char>, value: Seq<char>) -> StmtModel {
    StmtModel::For {
        iterator: "_i"@,
        init: "0"@,
        cond: "_i < "@ + size,
        inc: "1"@,
        body: seq![StmtModel::Assign { target, value }],
    }
}

fn counting_loop_stmt(size: &str, target: String, value: String) -> (r: Stmt)
    ensures
        r@ == counting_loop(size@, target@, value@),
{
    Stmt::For {
        iterator: "_i".to_owned(),
        init: "0".to_owned(),
        cond: cat2("_i < ", size),
        inc: "1".to_owned(),
        body: one_stmt(assign(target, raw(value))),
    }
}

/// The buffer that holds the elements; an input is filled with sample values.
pub open spec fn data_level(name: Seq<char>, exts: Seq<Seq<char>>, is_input: bool) -> Seq<StmtModel> {
    let data = level_text(name, 0, (exts.len() - 1) as nat);
    let total = extent_product(exts);
    seq![
        StmtModel::Decl {
            ty: float_ptr(1),
            name: data,
            init: Some(
                if is_input {
                    "(float*)malloc(sizeof(float) * "@ + total + ")"@
                } else {
                    "(float*)calloc("@ + total + ", sizeof(float))"@
                },
            ),
        },
        alloc_check(data, name),
    ] + (if is_input {
        seq![counting_loop(total, data + "[_i]"@, "(float)(_i % 1009) + 1.0f"@)]
    } else {
        seq![]
    })
}

/// `float` under `levels` levels of pointer.
pub open spec fn float_ptr(levels: u32) -> CType {
    CType::Ptr(Box::new(CType::Float), levels)
}

/// One level of pointers into the level below: entry `_i` points at the beginning of the `_i`th
/// run of the stride.
pub open spec fn pointer_level(name: Seq<char>, exts: Seq<Seq<char>>, level: nat) -> Seq<StmtModel> {
    let top = (exts.len() - 1) as nat;
    let this = level_text(name, level, top);
    let size = extent_product(exts.take(exts.len() - level));
    seq![
        StmtModel::Decl {
            ty: float_ptr((level + 1) as u32),
            name: this,
            init: Some(
                "("@ + float_ptr((level + 1) as u32).spelling() + ")malloc(sizeof("@ + float_ptr(
                    level as u32,
                ).spelling() + ") * "@ + size + ")"@,
            ),
        },
        alloc_check(this, name),
        counting_loop(
            size,
            this + "[_i]"@,
            "&"@ + level_text(name, (level - 1) as nat, top) + "[_i * "@ + exts[exts.len() - level]
                + "]"@,
        ),
    ]
}

/// The pointer levels from the first up to, not including, `upto`.
pub open spec fn pointer_levels(name: Seq<char>, exts: Seq<Seq<char>>, upto: nat) -> Seq<StmtModel>
    decreases upto,
{
    if upto <= 1 {
        Seq::empty()
    } else {
        pointer_levels(name, exts, (upto - 1) as nat) + pointer_level(name, exts, (upto - 1) as nat)
    }
}

/// The allocation of an interface variable: the buffer and one level of pointers for each further
/// dimension.
pub open spec fn array_alloc(name: Seq<char>, exts: Seq<Seq<char>>, is_input: bool) -> Seq<StmtModel> {
    data_level(name, exts, is_input) + pointer_levels(name, exts, exts.len())
}

/// The statements that free every level.
pub open spec fn array_frees(name: Seq<char>, levels: nat) -> Seq<StmtModel> {
    Seq::new(
        levels,
        |l: int|
            StmtModel::Raw("free("@ + level_text(name, l as nat, (levels - 1) as nat) + ");"@),
    )
}

fn data_level_stmts(name: &str, exts: &Vec<String>, is_input: bool) -> (r: Vec<Stmt>)
    requires
        0 < exts@.len() <= u32::MAX,
    ensures
        stmts_model(r@) == data_level(name@, views(exts@), is_input),
{
    let top: u32 = exts.len() as u32 - 1;
    let data = level_name(name, 0, top);
    let total = extents_product(exts, exts.len());
    proof {
        assert(views(exts@).take(exts@.len() as int) =~= views(exts@));
    }
    let alloc = if is_input {
        cat3("(float*)malloc(sizeof(float) * ", total.as_str(), ")")
    } else {
        cat3("(float*)calloc(", total.as_str(), ", sizeof(float))")
    };
    let mut out = one_stmt(
        Stmt::Decl { ty: CType::ptr(CType::Float, 1), name: data.clone(), init: Some(raw(alloc)) },
    );
    push_stmt(&mut out, alloc_check_stmt(data.as_str(), name));
    if is_input {
        push_stmt(
            &mut out,
            counting_loop_stmt(
                total.as_str(),
                cat2(data.as_str(), "[_i]"),
                "(float)(_i % 1009) + 1.0f".to_owned(),
            ),
        );
    }
    proof {
        assert(stmts_model(out@) =~= data_level(name@, views(exts@), is_input));
    }
    out
}

fn pointer_level_stmts(name: &str, exts: &Vec<String>, level: u32) -> (r: Vec<Stmt>)
    requires
        0 < level < exts@.len() <= u32::MAX,
    ensures
        stmts_model(r@) == pointer_level(name@, views(exts@), level as nat),
{
    let k: u32 = exts.len() as u32;
    let top: u32 = k - 1;
    let at: usize = (k - level) as usize;
    let size = extents_product(exts, at);
    let this_type = CType::ptr(CType::Float, level + 1);
    let prev_type = CType::ptr(CType::Float, level);
    let this = level_name(name, level, top);
    let prev = level_name(name, level - 1, top);
    let alloc = cat7(
        "(",
        this_type.to_text().as_str(),
        ")malloc(sizeof(",
        prev_type.to_text().as_str(),
        ") * ",
        size.as_str(),
        ")",
    );
    let mut out = one_stmt(
        Stmt::Decl { ty: this_type, name: this.clone(), init: Some(raw(alloc)) },
    );
    push_stmt(&mut out, alloc_check_stmt(this.as_str(), name));
    push_stmt(
        &mut out,
        counting_loop_stmt(
            size.as_str(),
            cat2(this.as_str(), "[_i]"),
            cat5("&", prev.as_str(), "[_i * ", exts[at].as_str(), "]"),
        ),
    );
    proof {
        assert(stmts_model(out@) =~= pointer_level(name@, views(exts@), level as nat));
    }
    out
}

/// Allocates an interface variable: the allocation, the statements that free every level, and the
/// name to pass to the entry point.
pub fn gen_array_alloc(v: &Variable, is_input: bool) -> (r: Result<(Vec<Stmt>, Vec<Stmt>, String)>)
    requires
        v.domain.wf(),
    ensures
        match extents(v.domain) {
            Err(f) => r matches Err(e) && e@ == f,
            Ok(exts) => r matches Ok((alloc, frees, top)) && stmts_model(alloc@) == array_alloc(
                v.name@,
                exts,
                is_input,
            ) && stmts_model(frees@) == array_frees(v.name@, exts.len()) && top@ == v.name@,
        },
{
    let exts = match dim_extents(&v.domain) {
        Ok(v) => v,
        Err(e) => return Err(e),
    };
    let name = v.name.as_str();
    let k: u32 = exts.len() as u32;
    let ghost ex = views(exts@);
    proof {
        assert(ex.len() == exts@.len());
    }
    let mut stmts = data_level_stmts(name, &exts, is_input);
    let mut frees = one_stmt(
        Stmt::Raw(cat3("free(", level_name(name, 0, k - 1).as_str(), ");")),
    );
    let ghost data = data_level(name@, ex, is_input);
    proof {
        assert(data + pointer_levels(name@, ex, 1) =~= data);
        assert(stmts_model(frees@) =~= array_frees(name@, k as nat).take(1));
    }
    let mut level: u32 = 1;
    while level < k
        invariant
            1 <= level <= k,
            k == exts@.len(),
            name@ == v.name@,
            ex == views(exts@),
            ex.len() == k,
            data == data_level(name@, ex, is_input),
            stmts_model(stmts@) == data + pointer_levels(name@, ex, level as nat),
            stmts_model(frees@) =~= array_frees(name@, k as nat).take(level as int),
        decreases k - level,
    {
        append_stmts(&mut stmts, pointer_level_stmts(name, &exts, level));
        push_stmt(
            &mut frees,
            Stmt::Raw(cat3("free(", level_name(name, level, k - 1).as_str(), ");")),
        );
        level += 1;
        proof {
            assert(stmts_model(stmts@) =~= data + pointer_levels(name@, ex, level as nat));
        }
    }
    proof {
        assert(array_frees(name@, k as nat).take(k as int) =~= array_frees(name@, k as nat));
    }
    Ok((stmts, frees, v.name.clone()))
}

/// Some statement declares `name` with this type.
pub open spec fn declares(stmts: Seq<StmtModel>, name: Seq<char>, ty: CType) -> bool {
    exists|i: int| 0 <= i < stmts.len() && is_decl(#[trigger] stmts[i], name, ty)
}

pub open spec fn is_decl(s: StmtModel, n: Seq<char>, t: CType) -> bool {
    match s {
        StmtModel::Decl { ty, name, init } => name == n && ty == t,
        _ => false,
    }
}

/// The type of the pointer that is passed for an interface variable is the type that the entry
/// point takes.
pub proof fn passed_pointer_has_the_entry_type(v: Variable, is_input: bool)
    requires
        v.domain.wf(),
        extents(v.domain) is Ok,
    ensures
        ({
            let exts = extents(v.domain)->Ok_0;
            declares(array_alloc(v.name@, exts, is_input), v.name@, interface_type(v.domain.ndims))
        }),
{
    let exts = extents(v.domain)->Ok_0;
    lemma_extent_count(v.domain, v.domain.ndims as nat);
    let all = array_alloc(v.name@, exts, is_input);
    if exts.len() == 1 {
        assert(all[0] == data_level(v.name@, exts, is_input)[0]);
    } else {
        let top = (exts.len() - 1) as nat;
        let before = data_level(v.name@, exts, is_input) + pointer_levels(v.name@, exts, top);
        assert(all =~= before + pointer_level(v.name@, exts, top));
        assert(all[before.len() as int] == pointer_level(v.name@, exts, top)[0]);
    }
}

proof fn lemma_extent_count(d: Domain, n: nat)
    ensures
        extents_upto(d, n) matches Ok(v) ==> v.len() == n,
    decreases n,
{
    if n > 0 {
        lemma_extent_count(d, (n - 1) as nat);
    }
}

/// The names that an allocation declares, in order.
pub open spec fn declared(stmts: Seq<StmtModel>) -> Seq<Seq<char>>
    decreases stmts.len(),
{
    if stmts.len() == 0 {
        Seq::empty()
    } else {
        match stmts.last() {
            StmtModel::Decl { ty, name, init } => declared(stmts.drop_last()).push(name),
            _ => declared(stmts.drop_last()),
        }
    }
}

proof fn lemma_declared_append(a: Seq<StmtModel>, b: Seq<StmtModel>)
    ensures
        declared(a + b) == declared(a) + declared(b),
    decreases b.len(),
{
    if b.len() == 0 {
        assert(a + b =~= a);
        assert(declared(a) + declared(b) =~= declared(a));
    } else {
        assert((a + b).drop_last() =~= a + b.drop_last());
        lemma_declared_append(a, b.drop_last());
        assert(declared(a) + declared(b.drop_last()).push(Seq::empty()).drop_last() =~= declared(a)
            + declared(b.drop_last()));
        if let StmtModel::Decl { ty, name, init } = b.last() {
            assert((declared(a) + declared(b.drop_last())).push(name) =~= declared(a) + declared(
                b.drop_last(),
            ).push(name));
        }
    }
}

proof fn lemma_declared_one(a: Seq<StmtModel>)
    requires
        a.len() > 0,
        a[0] is Decl,
        forall|i: int| 1 <= i < a.len() ==> !((#[trigger] a[i]) is Decl),
    ensures
        declared(a) == seq![a[0]->Decl_name],
    decreases a.len(),
{
    if a.len() == 1 {
        assert(a.drop_last() =~= Seq::empty());
        assert(declared(a.drop_last()) =~= Seq::empty());
        assert(a.last() == a[0]);
        assert(declared(a) =~= seq![a[0]->Decl_name]);
    } else {
        assert(!(a[a.len() - 1] is Decl));
        lemma_declared_one(a.drop_last());
    }
}

/// Every level that an allocation declares is freed, and nothing else is.
pub proof fn every_level_is_freed(name: Seq<char>, exts: Seq<Seq<char>>, is_input: bool)
    requires
        exts.len() > 0,
    ensures
        array_frees(name, exts.len()) == raw_stmts(
            wrapped("free("@, declared(array_alloc(name, exts, is_input)), ");"@),
        ),
{
    let levels = Seq::new(
        exts.len(),
        |l: int| level_text(name, l as nat, (exts.len() - 1) as nat),
    );
    lemma_declared_append(data_level(name, exts, is_input), pointer_levels(name, exts, exts.len()));
    lemma_declared_one(data_level(name, exts, is_input));
    lemma_declared_levels(name, exts, exts.len());
    assert(declared(array_alloc(name, exts, is_input)) =~= levels);
    assert(array_frees(name, exts.len()) =~= raw_stmts(wrapped("free("@, levels, ");"@)));
}

proof fn lemma_declared_levels(name: Seq<char>, exts: Seq<Seq<char>>, upto: nat)
    requires
        1 <= upto <= exts.len(),
    ensures
        declared(pointer_levels(name, exts, upto)) == Seq::new(
            (upto - 1) as nat,
            |l: int| level_text(name, (l + 1) as nat, (exts.len() - 1) as nat),
        ),
    decreases upto,
{
    if upto == 1 {
        assert(declared(pointer_levels(name, exts, upto)) =~= Seq::empty());
        assert(Seq::new(
            0,
            |l: int| level_text(name, (l + 1) as nat, (exts.len() - 1) as nat),
        ) =~= Seq::<Seq<char>>::empty());
    } else {
        let prev = (upto - 1) as nat;
        lemma_declared_levels(name, exts, prev);
        lemma_declared_append(pointer_levels(name, exts, prev), pointer_level(name, exts, prev));
        lemma_declared_one(pointer_level(name, exts, prev));
        assert(declared(pointer_levels(name, exts, upto)) =~= Seq::new(
            (upto - 1) as nat,
            |l: int| level_text(name, (l + 1) as nat, (exts.len() - 1) as nat),
        ));
    }
}

/// The allocations of a list of variables, each followed by an empty line, or the first failure.
pub open spec fn allocs(vars: Seq<Variable>, is_input: bool) -> core::result::Result<
    Seq<StmtModel>,
    Failure,
>
    decreases vars.len(),
{
    if vars.len() == 0 {
        Ok(Seq::empty())
    } else {
        match allocs(vars.drop_last(), is_input) {
            Err(f) => Err(f),
            Ok(before) => match extents(vars.last().domain) {
                Err(f) => Err(f),
                Ok(exts) => Ok(
                    before + array_alloc(vars.last().name@, exts, is_input) + seq![
                        StmtModel::Raw(""@),
                    ],
                ),
            },
        }
    }
}

proof fn lemma_allocs_stop(vars: Seq<Variable>, is_input: bool, n: int)
    requires
        0 <= n <= vars.len(),
        allocs(vars.take(n), is_input) is Err,
    ensures
        allocs(vars, is_input) == allocs(vars.take(n), is_input),
    decreases vars.len() - n,
{
    if n < vars.len() {
        assert(vars.take(n + 1).drop_last() =~= vars.take(n));
        lemma_allocs_stop(vars, is_input, n + 1);
    } else {
        assert(vars.take(n) =~= vars);
    }
}

/// The number of levels of an interface variable.
pub open spec fn levels(d: Domain) -> nat {
    if d.ndims == 0 {
        1
    } else {
        d.ndims as nat
    }
}

/// The statements that free every level of a list of variables.
pub open spec fn all_frees(vars: Seq<Variable>) -> Seq<StmtModel>
    decreases vars.len(),
{
    if vars.len() == 0 {
        Seq::empty()
    } else {
        all_frees(vars.drop_last()) + array_frees(vars.last().name@, levels(vars.last().domain))
    }
}

fn push_allocs(
    vars: &Vec<Variable>,
    is_input: bool,
    body: &mut Vec<Stmt>,
    frees: &mut Vec<Stmt>,
) -> (r: Result<()>)
    requires
        all_wf(vars@),
    ensures
        match allocs(vars@, is_input) {
            Err(f) => r matches Err(e) && e@ == f,
            Ok(more) => {
                &&& r is Ok
                &&& stmts_model(final(body)@) == stmts_model(old(body)@) + more
                &&& stmts_model(final(frees)@) == stmts_model(old(frees)@) + all_frees(vars@)
            },
        },
{
    let ghost b0 = stmts_model(body@);
    let ghost f0 = stmts_model(frees@);
    let mut i: usize = 0;
    proof {
        assert(vars@.take(0) =~= Seq::empty());
        assert(b0 + Seq::<StmtModel>::empty() =~= b0);
        assert(f0 + Seq::<StmtModel>::empty() =~= f0);
    }
    while i < vars.len()
        invariant
            i <= vars.len(),
            all_wf(vars@),
            allocs(vars@.take(i as int), is_input) matches Ok(more) && stmts_model(body@) == b0
                + more,
            stmts_model(frees@) == f0 + all_frees(vars@.take(i as int)),
        decreases vars.len() - i,
    {
        let ghost before = allocs(vars@.take(i as int), is_input)->Ok_0;
        let ghost freed = all_frees(vars@.take(i as int));
        proof {
            assert(vars@.take(i + 1).drop_last() =~= vars@.take(i as int));
            assert(vars@.take(i + 1).last() == vars@[i as int]);
            lemma_extent_count(vars@[i as int].domain, vars@[i as int].domain.ndims as nat);
        }
        match gen_array_alloc(&vars[i], is_input) {
            Ok((alloc, free, _)) => {
                let ghost exts = extents(vars@[i as int].domain)->Ok_0;
                append_stmts(body, alloc);
                push_stmt(body, raw_line(""));
                append_stmts(frees, free);
                proof {
                    let own = array_alloc(vars@[i as int].name@, exts, is_input);
                    assert(stmts_model(body@) =~= b0 + (before + own + seq![StmtModel::Raw(""@)]));
                    assert(stmts_model(frees@) =~= f0 + (freed + array_frees(
                        vars@[i as int].name@,
                        levels(vars@[i as int].domain),
                    )));
                }
            },
            Err(e) => {
                proof {
                    lemma_allocs_stop(vars@, is_input, i + 1);
                }
                return Err(e);
            },
        }
        i += 1;
    }
    proof {
        assert(vars@.take(i as int) =~= vars@);
    }
    Ok(())
}

/// The declaration of one parameter, read from the argument at position `n`, and the exit that is
/// taken where the argument is no number.
pub open spec fn param_read(p: Seq<char>, n: nat) -> Seq<StmtModel> {
    seq![
        StmtModel::Decl {
            ty: CType::Long,
            name: p,
            init: Some("strtol(argv["@ + dec(n) + "], &endptr, 10)"@),
        },
        StmtModel::If {
            cond: "*endptr != '\\0'"@,
            then_branch: seq![
                StmtModel::Raw(
                    "fprintf(stderr, \"alphac wrapper: could not convert argument "@ + dec(n)
                        + " (%s) to long.\\n\", argv["@ + dec(n) + "]);"@,
                ),
                StmtModel::Return(Some("1"@)),
            ],
            else_branch: seq![],
        },
    ]
}

/// The first `n` parameters, read from the arguments.
pub open spec fn param_reads(params: Seq<Seq<char>>, n: nat) -> Seq<StmtModel>
    decreases n,
{
    if n == 0 {
        Seq::empty()
    } else {
        param_reads(params, (n - 1) as nat) + param_read(params[n - 1], n)
    }
}

fn push_param_read(body: &mut Vec<Stmt>, p: &str, n: usize)
    ensures
        stmts_model(final(body)@) == stmts_model(old(body)@) + param_read(p@, n as nat),
{
    let ghost start = stmts_model(body@);
    let argn = dec_usize(n);
    push_stmt(
        body,
        Stmt::Decl {
            ty: CType::Long,
            name: p.to_owned(),
            init: Some(raw(cat3("strtol(argv[", argn.as_str(), "], &endptr, 10)"))),
        },
    );
    let mut then_branch = one_stmt(
        Stmt::Raw(
            cat5(
                "fprintf(stderr, \"alphac wrapper: could not convert argument ",
                argn.as_str(),
                " (%s) to long.\\n\", argv[",
                argn.as_str(),
                "]);",
            ),
        ),
    );
    push_stmt(&mut then_branch, Stmt::Return(Some(raw("1".to_owned()))));
    let else_branch: Vec<Stmt> = Vec::new();
    proof {
        assert(stmts_model(then_branch@) =~= param_read(p@, n as nat)[1]->then_branch);
        assert(stmts_model(else_branch@) =~= seq![]);
    }
    push_stmt(
        body,
        Stmt::If { cond: raw("*endptr != '\\0'".to_owned()), then_branch, else_branch },
    );
    proof {
        assert(stmts_model(body@) =~= start + param_read(p@, n as nat));
    }
}

/// The exit that is taken where the number of arguments is wrong.
pub open spec fn argument_check(params: Seq<Seq<char>>) -> StmtModel {
    StmtModel::If {
        cond: "argc != "@ + dec(params.len() + 1),
        then_branch: seq![
            StmtModel::Raw("fprintf(stderr, \"alphac wrapper: wrong number of arguments\\n\");"@),
            StmtModel::Raw(usage_text(params)),
            StmtModel::Return(Some("1"@)),
        ],
        else_branch: seq![],
    }
}

fn argument_check_stmt(param_names: &Vec<String>) -> (r: Stmt)
    requires
        param_names@.len() < usize::MAX,
    ensures
        r@ == argument_check(views(param_names@)),
{
    let mut then_branch = one_stmt(
        raw_line("fprintf(stderr, \"alphac wrapper: wrong number of arguments\\n\");"),
    );
    push_stmt(&mut then_branch, usage_hint(param_names));
    push_stmt(&mut then_branch, Stmt::Return(Some(raw("1".to_owned()))));
    let else_branch: Vec<Stmt> = Vec::new();
    proof {
        assert(stmts_model(then_branch@) =~= argument_check(views(param_names@))->then_branch);
        assert(stmts_model(else_branch@) =~= seq![]);
    }
    Stmt::If {
        cond: raw(cat2("argc != ", dec_usize(param_names.len() + 1).as_str())),
        then_branch,
        else_branch,
    }
}

pub open spec fn variable_names(vars: Seq<Variable>) -> Seq<Seq<char>> {
    crate::driver::var_names(vars)
}

/// `main` up to the allocations: the parameters are read from the arguments.
pub open spec fn main_opening(params: Seq<Seq<char>>) -> Seq<StmtModel> {
    seq![
        argument_check(params),
        StmtModel::Decl {
            ty: CType::Ptr(Box::new(CType::Char), 1),
            name: "endptr"@,
            init: None,
        },
    ] + param_reads(params, params.len()) + (if params.len() > 0 {
        seq![StmtModel::Raw(""@)]
    } else {
        seq![]
    }) + seq![
        StmtModel::Decl { ty: CType::Long, name: "_i"@, init: None },
        StmtModel::Raw(""@),
    ]
}

/// The call of the entry point, and its report.
pub open spec fn main_call(params: Seq<Seq<char>>, system: System) -> Seq<StmtModel> {
    seq![
        StmtModel::Expr(
            system.name@ + "("@ + joined(
                params + variable_names(system.inputs@) + variable_names(system.outputs@),
                ", "@,
            ) + ")"@,
        ),
        StmtModel::Raw(""@),
        StmtModel::Raw(
            "printf(\""@ + system.name@ + ": allocated, called, and freed successfully.\\n\");"@,
        ),
        StmtModel::Raw(""@),
    ]
}

/// The body of `main`.
pub open spec fn main_body(
    params: Seq<Seq<char>>,
    system: System,
    inputs: Seq<StmtModel>,
    outputs: Seq<StmtModel>,
) -> Seq<StmtModel> {
    main_opening(params) + inputs + outputs + main_call(params, system) + (all_frees(system.inputs@)
        + all_frees(system.outputs@)) + seq![StmtModel::Return(Some("0"@))]
}

/// What `main` consists of, or the first failure to size an array.
pub open spec fn main_outcome(params: Seq<Seq<char>>, system: System) -> core::result::Result<
    Seq<StmtModel>,
    Failure,
> {
    match allocs(system.inputs@, true) {
        Err(f) => Err(f),
        Ok(inputs) => match allocs(system.outputs@, false) {
            Err(f) => Err(f),
            Ok(outputs) => Ok(main_body(params, system, inputs, outputs)),
        },
    }
}

fn push_var_args(args: &mut Vec<CExpr>, vars: &Vec<Variable>)
    ensures
        exprs_text(final(args)@) == exprs_text(old(args)@) + variable_names(vars@),
{
    let ghost start = exprs_text(args@);
    let ghost target = variable_names(vars@);
    let mut i: usize = 0;
    proof {
        assert(start + target.take(0) =~= start);
    }
    while i < vars.len()
        invariant
            i <= vars.len(),
            target == variable_names(vars@),
            exprs_text(args@) == start + target.take(i as int),
        decreases vars.len() - i,
    {
        push_expr(args, raw(vars[i].name.clone()));
        proof {
            assert(start + target.take(i + 1) =~= (start + target.take(i as int)).push(
                target[i as int],
            ));
        }
        i += 1;
    }
    proof {
        assert(target.take(i as int) =~= target);
    }
}

fn main_opening_stmts(param_names: &Vec<String>) -> (r: Vec<Stmt>)
    requires
        param_names@.len() < usize::MAX,
    ensures
        stmts_model(r@) == main_opening(views(param_names@)),
{
    let ghost params = views(param_names@);
    let mut body = one_stmt(argument_check_stmt(param_names));
    push_stmt(
        &mut body,
        Stmt::Decl {
            ty: CType::Ptr(Box::new(CType::Char), 1),
            name: "endptr".to_owned(),
            init: None,
        },
    );
    let ghost opening = stmts_model(body@);
    let mut i: usize = 0;
    proof {
        assert(opening + param_reads(params, 0) =~= opening);
    }
    while i < param_names.len()
        invariant
            i <= param_names.len(),
            param_names@.len() < usize::MAX,
            params == views(param_names@),
            stmts_model(body@) == opening + param_reads(params, i as nat),
        decreases param_names.len() - i,
    {
        push_param_read(&mut body, param_names[i].as_str(), i + 1);
        i += 1;
        proof {
            assert(stmts_model(body@) =~= opening + param_reads(params, i as nat));
        }
    }
    if param_names.len() > 0 {
        push_stmt(&mut body, raw_line(""));
    }
    push_stmt(&mut body, Stmt::Decl { ty: CType::Long, name: "_i".to_owned(), init: None });
    push_stmt(&mut body, raw_line(""));
    proof {
        assert(stmts_model(body@) =~= main_opening(params));
    }
    body
}

fn main_call_stmts(param_names: &Vec<String>, system: &System) -> (r: Vec<Stmt>)
    ensures
        stmts_model(r@) == main_call(views(param_names@), *system),
{
    let mut args = name_args(param_names);
    push_var_args(&mut args, &system.inputs);
    push_var_args(&mut args, &system.outputs);
    let mut body = one_stmt(Stmt::Expr(CExpr::Call(system.name.clone(), args)));
    push_stmt(&mut body, raw_line(""));
    push_stmt(
        &mut body,
        Stmt::Raw(
            cat3(
                "printf(\"",
                system.name.as_str(),
                ": allocated, called, and freed successfully.\\n\");",
            ),
        ),
    );
    push_stmt(&mut body, raw_line(""));
    proof {
        assert(stmts_model(body@) =~= main_call(views(param_names@), *system));
    }
    body
}

pub fn build_main_body(system: &System, param_names: &Vec<String>) -> (r: Result<Vec<Stmt>>)
    requires
        system.wf(),
        param_names@.len() < usize::MAX,
    ensures
        crate::driver::stmts_outcome(r) == main_outcome(views(param_names@), *system),
{
    let mut body = main_opening_stmts(param_names);
    let mut frees: Vec<Stmt> = Vec::new();
    proof {
        assert(stmts_model(frees@) =~= Seq::empty());
    }
    match push_allocs(&system.inputs, true, &mut body, &mut frees) {
        Ok(()) => {},
        Err(e) => return Err(e),
    }
    match push_allocs(&system.outputs, false, &mut body, &mut frees) {
        Ok(()) => {},
        Err(e) => return Err(e),
    }
    proof {
        let freed = all_frees(system.inputs@) + all_frees(system.outputs@);
        assert(stmts_model(frees@) =~= freed);
    }
    append_stmts(&mut body, main_call_stmts(param_names, system));
    append_stmts(&mut body, frees);
    push_stmt(&mut body, Stmt::Return(Some(raw("0".to_owned()))));
    proof {
        let inputs = allocs(system.inputs@, true)->Ok_0;
        let outputs = allocs(system.outputs@, false)->Ok_0;
        assert(stmts_model(body@) =~= main_body(views(param_names@), *system, inputs, outputs));
    }
    Ok(body)
}

/// The declaration of the entry point.
pub open spec fn entry_declaration(params: Seq<Seq<char>>, system: System) -> FunctionModel {
    FunctionModel {
        return_type: CType::Void,
        name: system.name@,
        params: entry_params(params, system.inputs@, system.outputs@),
        body: Seq::empty(),
        is_static: false,
    }
}

/// The lines before `main`.
pub open spec fn opening_lines(params: Seq<Seq<char>>, system: System) -> Seq<Seq<char>> {
    seq![
        "// Auto-generated test wrapper for '"@ + system.name@ + "' by alphac (alpha-rs)."@,
        "// Allocates memory for each parameter, calls "@ + system.name@ + ", and frees it."@,
        ""@,
        "#include <stdio.h>"@,
        "#include <stdlib.h>"@,
        ""@,
        entry_declaration(params, system).header() + ";"@,
        ""@,
        "int main(int argc, char **argv) {"@,
    ]
}

/// The harness of a system.
pub open spec fn wrapper(system: System) -> core::result::Result<Seq<char>, Failure> {
    let params = param_list(system.params@);
    match main_outcome(params, system) {
        Err(f) => Err(f),
        Ok(body) => Ok(
            lines_text(opening_lines(params, system)) + stmts_text(body, "\t"@) + "}\n"@,
        ),
    }
}

/// Generates the harness of a system: one self-contained source file.
pub fn generate_wrapper(system: &System) -> (r: Result<String>)
    requires
        system.wf(),
        system.params@.len() < usize::MAX,
    ensures
        text_outcome(r) == wrapper(*system),
{
    let param_names = param_names_of(&system.params);
    let ghost params = views(param_names@);
    let no_body: Vec<Stmt> = Vec::new();
    let decl = Function {
        return_type: CType::Void,
        name: system.name.clone(),
        params: entry_params_list(&param_names, &system.inputs, &system.outputs),
        body: no_body,
        is_static: false,
    };
    proof {
        assert(stmts_model(no_body@) =~= Seq::empty());
        assert(views(param_names@).len() == param_names@.len());
    }
    let name = system.name.as_str();
    let mut out: Vec<String> = Vec::new();
    push_text(
        &mut out,
        cat3("// Auto-generated test wrapper for '", name, "' by alphac (alpha-rs)."),
    );
    push_text(
        &mut out,
        cat3("// Allocates memory for each parameter, calls ", name, ", and frees it."),
    );
    line(&mut out, "");
    line(&mut out, "#include <stdio.h>");
    line(&mut out, "#include <stdlib.h>");
    line(&mut out, "");
    push_text(&mut out, cat2(decl.signature().as_str(), ";"));
    line(&mut out, "");
    line(&mut out, "int main(int argc, char **argv) {");
    proof {
        assert(views(out@) =~= opening_lines(params, *system));
    }
    let body = match build_main_body(system, &param_names) {
        Ok(b) => b,
        Err(e) => return Err(e),
    };
    let mut text = print_lines(&out);
    write_stmts(&mut text, &body, "\t");
    text.append("}\n");
    Ok(text)
}

/// The harness declares the entry point exactly as the demand-driven program defines it, where both
/// know the parameters by the same names.
pub proof fn wrapper_declares_the_demand_driven_entry(system: System)
    requires
        system.bodies@.len() > 0,
        param_list(system.params@) == param_list(system.bodies@[0].params@),
        crate::writec::driver(param_list(system.bodies@[0].params@), system) is Ok,
    ensures
        entry_declaration(param_list(system.params@), system).header() == (crate::writec::driver(
            param_list(system.bodies@[0].params@),
            system,
        )->Ok_0).header(),
{
}

/// The harness declares the entry point exactly as the scheduled program defines it, where both
/// know the parameters by the same names.
pub proof fn wrapper_declares_the_scheduled_entry(system: System, body: Seq<StmtModel>)
    requires
        system.bodies@.len() > 0,
        param_list(system.params@) == param_list(system.bodies@[0].params@),
        crate::scheduledc::driver(param_list(system.bodies@[0].params@), system, body) is Ok,
    ensures
        entry_declaration(param_list(system.params@), system).header() == (
        crate::scheduledc::driver(param_list(system.bodies@[0].params@), system, body)->Ok_0).header(),
{
}

} // verus!
