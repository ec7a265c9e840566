//! Expressions to C, shared by the generators.
//!
//! The generators differ in how a variable is read and in what becomes of a reduction inside an
//! expression ([`Backend`]); everything else depends only on the names the indices go by.
use crate::error::{unsupported, CodegenError, Failure, IslError, Result};
use crate::ir::{
    expr_wf, exprs_wf, filled_all, referred, AffineFunction, Expr, ExprKind, Operator, StandardEquation,
};
use crate::simplec::{exprs_text, push_expr, raw, Function, FunctionModel, Expr as CExpr};
use crate::text::{
    cat2, cat3, cat4, cat5, cat7, chars_of, contains, dec, dec_u32, dec_usize, insert_name, join,
    joined, occurs, push_text, str_eq, views, with_name,
};
use crate::writec::{gen_reduce, reduce_value};
use vstd::prelude::*;

verus! {

#[derive(Clone, Copy, PartialEq, Eq, Debug, Structural)]
pub enum Role {
    Input,
    Output,
    Local,
}

#[derive(Clone, Copy, PartialEq, Eq, Debug, Structural)]
pub struct VarInfo {
    pub role: Role,
    pub ndims: u32,
}

/// Which program an expression is generated for.
#[derive(Clone, Copy, PartialEq, Eq, Debug, Structural)]
pub enum Backend {
    /// Demand-driven evaluation: outputs and locals are read by calling their evaluation functions,
    /// and a reduction becomes a function of its own.
    WriteC,
    /// A scheduled loop nest: every variable is read in place, and reductions have been split into
    /// statements beforehand.
    ScheduledC,
}

/// What a generator knows and what it has emitted so far.
pub struct Gen {
    pub backend: Backend,
    pub variables: Vec<(String, VarInfo)>,
    pub param_names: Vec<String>,
    pub reduce_fns: Vec<Function>,
    /// The functions to declare as external, in order.
    pub externals: Vec<String>,
}

/// What a generator knows, which no expression changes.
pub struct Env {
    pub backend: Backend,
    pub variables: Seq<(Seq<char>, VarInfo)>,
    pub params: Seq<Seq<char>>,
}

/// What a generator has emitted beside the expression at hand.
pub struct Emitted {
    pub reduce_fns: Seq<FunctionModel>,
    pub externals: Seq<Seq<char>>,
}

/// The entries of a generator's table of variables.
pub open spec fn entries(v: Seq<(String, VarInfo)>) -> Seq<(Seq<char>, VarInfo)> {
    Seq::new(v.len(), |i: int| (v[i].0@, v[i].1))
}

pub open spec fn functions_model(v: Seq<Function>) -> Seq<FunctionModel> {
    Seq::new(v.len(), |i: int| v[i]@)
}

impl Gen {
    pub open spec fn env(self) -> Env {
        Env {
            backend: self.backend,
            variables: entries(self.variables@),
            params: views(self.param_names@),
        }
    }

    pub open spec fn emitted(self) -> Emitted {
        Emitted {
            reduce_fns: functions_model(self.reduce_fns@),
            externals: views(self.externals@),
        }
    }
}

/// What a variable is known as: the latest entry under its name counts.
pub open spec fn found(variables: Seq<(Seq<char>, VarInfo)>, name: Seq<char>) -> Option<VarInfo>
    decreases variables.len(),
{
    if variables.len() == 0 {
        None
    } else if variables.last().0 == name {
        Some(variables.last().1)
    } else {
        found(variables.drop_last(), name)
    }
}

impl Gen {
    pub fn variable(&self, name: &str) -> (r: Option<VarInfo>)
        ensures
            r == found(self.env().variables, name@),
    {
        let mut i: usize = self.variables.len();
        let ghost all = entries(self.variables@);
        proof {
            assert(all.take(i as int) =~= all);
        }
        while i > 0
            invariant
                i <= self.variables.len(),
                all == entries(self.variables@),
                found(all, name@) == found(all.take(i as int), name@),
            decreases i,
        {
            i -= 1;
            proof {
                assert(all.take(i + 1).drop_last() =~= all.take(i as int));
                assert(all.take(i + 1).last() == all[i as int]);
            }
            if str_eq(self.variables[i].0.as_str(), name) {
                return Some(self.variables[i].1);
            }
        }
        None
    }

    /// Records that a function is to be declared as external.
    pub fn add_external(&mut self, name: &str)
        ensures
            final(self).env() == old(self).env(),
            final(self).emitted() == (Emitted {
                externals: with_name(old(self).emitted().externals, name@),
                ..old(self).emitted()
            }),
    {
        insert_name(&mut self.externals, name);
    }

    /// A read of `name` at the point whose coordinates are the C expressions `idx`.
    pub fn render_read(&self, name: &str, role: Role, idx: &Vec<String>) -> (r: String)
        ensures
            r@ == read_text(self.backend, name@, role, views(idx@)),
    {
        let list = join(idx, ",");
        match (self.backend, role) {
            (Backend::WriteC, Role::Output) | (Backend::WriteC, Role::Local) => cat5(
                "eval_",
                name,
                "(",
                list.as_str(),
                ")",
            ),
            _ => cat4(name, "(", list.as_str(), ")"),
        }
    }
}

/// How a variable is read: through its access macro, or, for a computed variable of a
/// demand-driven program, through its evaluation function.
pub open spec fn read_text(backend: Backend, name: Seq<char>, role: Role, idx: Seq<Seq<char>>) -> Seq<
    char,
> {
    if backend == Backend::WriteC && role != Role::Input {
        "eval_"@ + name + "("@ + joined(idx, ","@) + ")"@
    } else {
        name + "("@ + joined(idx, ","@) + ")"@
    }
}

/// The name of the parameter at position `d`, made up where it has none.
pub open spec fn param_name(p: Option<String>, d: nat) -> Seq<char> {
    match p {
        Some(s) => s@,
        None => "P"@ + dec(d),
    }
}

pub open spec fn param_list(params: Seq<Option<String>>) -> Seq<Seq<char>> {
    Seq::new(params.len(), |d: int| param_name(params[d], d as nat))
}

pub fn param_names_of(params: &Vec<Option<String>>) -> (r: Vec<String>)
    ensures
        views(r@) == param_list(params@),
{
    let mut out: Vec<String> = Vec::new();
    let mut d: usize = 0;
    while d < params.len()
        invariant
            d <= params.len(),
            views(out@) =~= param_list(params@).take(d as int),
        decreases params.len() - d,
    {
        let name = match &params[d] {
            Some(s) => s.clone(),
            None => cat2("P", dec_usize(d).as_str()),
        };
        push_text(&mut out, name);
        d += 1;
    }
    proof {
        assert(param_list(params@).take(d as int) =~= param_list(params@));
    }
    out
}

/// `[p,q] -> `, or nothing for no parameter.
pub open spec fn prefix_text(params: Seq<Seq<char>>) -> Seq<char> {
    if params.len() == 0 {
        Seq::empty()
    } else {
        "["@ + joined(params, ","@) + "] -> "@
    }
}

pub fn space_prefix(params: &Vec<String>) -> (r: String)
    ensures
        r@ == prefix_text(views(params@)),
{
    if params.len() == 0 {
        String::new()
    } else {
        cat3("[", join(params, ",").as_str(), "] -> ")
    }
}

/// The universe over the given parameters and indices, in set notation.
pub open spec fn universe_text(params: Seq<Seq<char>>, names: Seq<Seq<char>>) -> Seq<char> {
    if names.len() == 0 {
        prefix_text(params) + "{: }"@
    } else {
        prefix_text(params) + "{["@ + joined(names, ","@) + "]: }"@
    }
}

/// The set in whose context a condition over `names` is printed.
pub fn ambient_universe(params: &Vec<String>, names: &Vec<String>) -> (r: String)
    ensures
        r@ == universe_text(views(params@), views(names@)),
{
    let prefix = space_prefix(params);
    if names.len() == 0 {
        cat2(prefix.as_str(), "{: }")
    } else {
        cat4(prefix.as_str(), "{[", join(names, ",").as_str(), "]: }")
    }
}

pub open spec fn is_letter(c: char) -> bool {
    ('a' <= c <= 'z') || ('A' <= c <= 'Z')
}

pub open spec fn is_digit(c: char) -> bool {
    '0' <= c <= '9'
}

/// The C keywords that a generated name must not be.
pub open spec fn is_keyword(s: Seq<char>) -> bool {
    ||| s == "int"@
    ||| s == "float"@
    ||| s == "double"@
    ||| s == "return"@
    ||| s == "if"@
    ||| s == "else"@
    ||| s == "for"@
    ||| s == "while"@
    ||| s == "long"@
    ||| s == "char"@
    ||| s == "void"@
    ||| s == "static"@
    ||| s == "struct"@
    ||| s == "const"@
    ||| s == "break"@
    ||| s == "continue"@
}

/// A letter or underscore, then letters, digits and underscores, and no keyword.
pub open spec fn is_c_ident(s: Seq<char>) -> bool {
    &&& s.len() > 0
    &&& is_letter(s[0]) || s[0] == '_'
    &&& forall|i: int|
        1 <= i < s.len() ==> is_letter(#[trigger] s[i]) || is_digit(s[i]) || s[i] == '_'
    &&& !is_keyword(s)
}

fn keyword(s: &str) -> (r: bool)
    ensures
        r == is_keyword(s@),
{
    str_eq(s, "int") || str_eq(s, "float") || str_eq(s, "double") || str_eq(s, "return") || str_eq(
        s,
        "if",
    ) || str_eq(s, "else") || str_eq(s, "for") || str_eq(s, "while") || str_eq(s, "long") || str_eq(
        s,
        "char",
    ) || str_eq(s, "void") || str_eq(s, "static") || str_eq(s, "struct") || str_eq(s, "const")
        || str_eq(s, "break") || str_eq(s, "continue")
}

fn letter(c: char) -> (r: bool)
    ensures
        r == is_letter(c),
{
    ('a' <= c && c <= 'z') || ('A' <= c && c <= 'Z')
}

pub fn is_valid_c_ident(s: &str) -> (r: bool)
    ensures
        r == is_c_ident(s@),
{
    let v = chars_of(s);
    if v.len() == 0 {
        return false;
    }
    if !(letter(v[0]) || v[0] == '_') {
        return false;
    }
    let mut i: usize = 1;
    while i < v.len()
        invariant
            v@ == s@,
            1 <= i <= v.len(),
            forall|j: int|
                1 <= j < i ==> is_letter(#[trigger] s@[j]) || is_digit(s@[j]) || s@[j] == '_',
        decreases v.len() - i,
    {
        let c = v[i];
        if !(letter(c) || ('0' <= c && c <= '9') || c == '_') {
            return false;
        }
        i += 1;
    }
    !keyword(s)
}

/// `hint` where it names `n` indices by C identifiers, and `<prefix>0`, `<prefix>1`, ... otherwise.
pub open spec fn picked(hint: Seq<Seq<char>>, n: nat, prefix: Seq<char>) -> Seq<Seq<char>> {
    if hint.len() == n && forall|i: int| 0 <= i < n ==> is_c_ident(#[trigger] hint[i]) {
        hint
    } else {
        Seq::new(n, |i: int| prefix + dec(i as nat))
    }
}

/// A name for each of `n` indices.
pub fn pick_names(hint: &Vec<String>, n: u32) -> (r: Vec<String>)
    ensures
        views(r@) == picked(views(hint@), n as nat, "i"@),
{
    pick_names_prefixed(hint, n, "i")
}

pub fn copy_names(v: &Vec<String>) -> (r: Vec<String>)
    ensures
        views(r@) == views(v@),
{
    let mut out: Vec<String> = Vec::new();
    let mut i: usize = 0;
    while i < v.len()
        invariant
            i <= v.len(),
            views(out@) =~= views(v@).take(i as int),
        decreases v.len() - i,
    {
        push_text(&mut out, v[i].clone());
        i += 1;
    }
    proof {
        assert(views(v@).take(i as int) =~= views(v@));
    }
    out
}

pub fn pick_names_prefixed(hint: &Vec<String>, n: u32, prefix: &str) -> (r: Vec<String>)
    ensures
        views(r@) == picked(views(hint@), n as nat, prefix@),
{
    let mut usable = hint.len() as u64 == n as u64;
    let mut i: usize = 0;
    while usable && i < hint.len()
        invariant
            i <= hint.len(),
            usable ==> hint.len() == n,
            usable ==> forall|j: int| 0 <= j < i ==> is_c_ident(#[trigger] views(hint@)[j]),
            !usable ==> hint.len() != n || exists|j: int|
                0 <= j < hint.len() && !is_c_ident(#[trigger] views(hint@)[j]),
        decreases hint.len() - i,
    {
        usable = is_valid_c_ident(hint[i].as_str());
        proof {
            assert(views(hint@)[i as int] == hint@[i as int]@);
        }
        i += 1;
    }
    if usable {
        copy_names(hint)
    } else {
        let mut out: Vec<String> = Vec::new();
        let mut d: u32 = 0;
        while d < n
            invariant
                d <= n,
                views(out@) =~= Seq::new(d as nat, |i: int| prefix@ + dec(i as nat)),
            decreases n - d,
        {
            push_text(&mut out, cat2(prefix, dec_u32(d).as_str()));
            d += 1;
        }
        out
    }
}

/// There are as many names as indices.
pub proof fn picked_names_all_indices(hint: Seq<Seq<char>>, n: nat, prefix: Seq<char>)
    ensures
        picked(hint, n, prefix).len() == n,
{
}

/// The explanation of a domain that has no bound.
pub open spec fn unbounded_text(context: Seq<char>, message: Seq<char>) -> Seq<char> {
    context + ": isl couldn't establish a bound (\""@ + message
        + "\") — likely a `case` branch (often `auto`) whose domain isn't independently bounded once combined with only the enclosing equation's own ambient context; a documented limitation, not a crash"@
}

/// What a failed bound computation is reported as: an unbounded domain is a construct that is not
/// handled, anything else is the failure itself.
pub open spec fn bound_failure(context: Seq<char>, message: Seq<char>) -> Failure {
    if occurs(message, "unbounded"@) {
        Failure::Unsupported(unbounded_text(context, message))
    } else {
        Failure::Isl(message)
    }
}

pub fn isl_bound_err(context: &str, e: &IslError) -> (r: CodegenError)
    ensures
        r@ == bound_failure(context@, e.message@),
{
    if contains(e.message.as_str(), "unbounded") {
        CodegenError::Unsupported(
            cat4(
                context,
                ": isl couldn't establish a bound (\"",
                e.message.as_str(),
                "\") — likely a `case` branch (often `auto`) whose domain isn't independently bounded once combined with only the enclosing equation's own ambient context; a documented limitation, not a crash",
            ),
        )
    } else {
        CodegenError::Isl(e.clone())
    }
}

/// The C spelling of a binary operator.
pub open spec fn c_op(op: Seq<char>) -> Option<Seq<char>> {
    if op == "+"@ { Some("+"@) }
    else if op == "-"@ { Some("-"@) }
    else if op == "*"@ { Some("*"@) }
    else if op == "/"@ { Some("/"@) }
    else if op == "="@ { Some("=="@) }
    else if op == "!="@ { Some("!="@) }
    else if op == ">="@ { Some(">="@) }
    else if op == ">"@ { Some(">"@) }
    else if op == "<"@ { Some("<"@) }
    else if op == "<="@ { Some("<="@) }
    else if op == "and"@ { Some("&&"@) }
    else if op == "or"@ { Some("||"@) }
    else { None }
}

pub fn binary_c_op(op: &str) -> (r: Option<&'static str>)
    ensures
        match r {
            Some(s) => c_op(op@) == Some(s@),
            None => c_op(op@) is None,
        },
{
    if str_eq(op, "+") { Some("+") }
    else if str_eq(op, "-") { Some("-") }
    else if str_eq(op, "*") { Some("*") }
    else if str_eq(op, "/") { Some("/") }
    else if str_eq(op, "=") { Some("==") }
    else if str_eq(op, "!=") { Some("!=") }
    else if str_eq(op, ">=") { Some(">=") }
    else if str_eq(op, ">") { Some(">") }
    else if str_eq(op, "<") { Some("<") }
    else if str_eq(op, "<=") { Some("<=") }
    else if str_eq(op, "and") { Some("&&") }
    else if str_eq(op, "or") { Some("||") }
    else { None }
}

pub open spec fn kind_name(k: ExprKind) -> Seq<char> {
    match k {
        ExprKind::Variable(_) => "Variable"@,
        ExprKind::Bool(_) => "Bool"@,
        ExprKind::Int(_) => "Int"@,
        ExprKind::Real(_) => "Real"@,
        ExprKind::Dependence { .. } => "Dependence"@,
        ExprKind::IndexFunction { .. } => "IndexFunction"@,
        ExprKind::IndexPolynomial => "IndexPolynomial"@,
        ExprKind::If { .. } => "If"@,
        ExprKind::Restrict { .. } => "Restrict"@,
        ExprKind::AutoRestrict { .. } => "AutoRestrict"@,
        ExprKind::Case { .. } => "Case"@,
        ExprKind::Reduce { .. } => "Reduce"@,
        ExprKind::Convolution { .. } => "Convolution"@,
        ExprKind::Select { .. } => "Select"@,
        ExprKind::MultiArg { .. } => "MultiArg"@,
        ExprKind::Binary { .. } => "Binary"@,
        ExprKind::Unary { .. } => "Unary"@,
    }
}

pub fn other_kind_name(k: &ExprKind) -> (r: &'static str)
    ensures
        r@ == kind_name(*k),
{
    match k {
        ExprKind::Variable(_) => "Variable",
        ExprKind::Bool(_) => "Bool",
        ExprKind::Int(_) => "Int",
        ExprKind::Real(_) => "Real",
        ExprKind::Dependence { .. } => "Dependence",
        ExprKind::IndexFunction { .. } => "IndexFunction",
        ExprKind::IndexPolynomial => "IndexPolynomial",
        ExprKind::If { .. } => "If",
        ExprKind::Restrict { .. } => "Restrict",
        ExprKind::AutoRestrict { .. } => "AutoRestrict",
        ExprKind::Case { .. } => "Case",
        ExprKind::Reduce { .. } => "Reduce",
        ExprKind::Convolution { .. } => "Convolution",
        ExprKind::Select { .. } => "Select",
        ExprKind::MultiArg { .. } => "MultiArg",
        ExprKind::Binary { .. } => "Binary",
        ExprKind::Unary { .. } => "Unary",
    }
}

/// The text of an expression or the reason why there is none.
pub type Outcome = core::result::Result<Seq<char>, Failure>;

/// The texts of several expressions or the reason why there are none.
pub type Outcomes = core::result::Result<Seq<Seq<char>>, Failure>;

pub open spec fn outcome(r: Result<CExpr>) -> Outcome {
    match r {
        Ok(e) => Ok(e@),
        Err(e) => Err(e@),
    }
}

pub open spec fn outcomes(r: Result<Vec<CExpr>>) -> Outcomes {
    match r {
        Ok(v) => Ok(exprs_text(v@)),
        Err(e) => Err(e@),
    }
}

pub open spec fn refused(message: Seq<char>) -> Outcome {
    Err(Failure::Unsupported(message))
}

/// `(c) ? (t) : (e)`
pub open spec fn ternary(c: Seq<char>, t: Seq<char>, e: Seq<char>) -> Seq<char> {
    "("@ + c + ") ? ("@ + t + ") : ("@ + e + ")"@
}

/// The text of a constant.
pub open spec fn constant_text(k: ExprKind) -> Option<Seq<char>> {
    match k {
        ExprKind::Bool(b) => Some(if b { "1.0f"@ } else { "0.0f"@ }),
        ExprKind::Int(s) => Some("((float)("@ + s@ + "))"@),
        ExprKind::Real(s) => Some("((float)("@ + s@ + "))"@),
        _ => None,
    }
}

/// A dependence reads a variable at the image of the ambient indices; on a constant it has no
/// effect.
pub open spec fn dependence_text(
    env: Env,
    names: Seq<Seq<char>>,
    function: AffineFunction,
    operand: ExprKind,
) -> Outcome {
    match operand {
        ExprKind::Variable(name) => match found(env.variables, name@) {
            None => refused("reference to undeclared variable '"@ + name@ + "'"@),
            Some(info) => if function.n_in != names.len() {
                refused(
                    "dependence function arity ("@ + dec(function.n_in as nat)
                        + ") doesn't match the ambient index count ("@ + dec(names.len()) + ")"@,
                )
            } else if function.outputs@.len() != info.ndims {
                refused(
                    "dependence function's output arity doesn't match '"@ + name@
                        + "''s own dimensionality"@,
                )
            } else {
                Ok(read_text(env.backend, name@, info.role, filled_all(function.outputs@, names)))
            },
        },
        _ => match constant_text(operand) {
            Some(t) => Ok(t),
            None => refused(
                "internal error: Dependence child is "@ + kind_name(operand)
                    + " (Normalize guarantees Variable or a constant)"@,
            ),
        },
    }
}

/// The value of an affine function with one output.
pub open spec fn index_function_text(names: Seq<Seq<char>>, function: AffineFunction) -> Outcome {
    if function.outputs@.len() != 1 {
        refused("val(f) codegen only implemented for a single-output function"@)
    } else if function.n_in != names.len() {
        refused("val(f) function's arity doesn't match the ambient index count"@)
    } else {
        Ok("((float)("@ + function.outputs@[0].filled(names) + "))"@)
    }
}

/// `op` applied to two texts; absent where the operator is unknown.
pub open spec fn binary_text(op: Seq<char>, l: Seq<char>, r: Seq<char>) -> Option<Seq<char>> {
    if op == "min"@ || op == "max"@ {
        Some(op + "("@ + joined(seq![l, r], ", "@) + ")"@)
    } else if op == "xor"@ {
        Some("((("@ + l + ") != 0) != (("@ + r + ") != 0))"@)
    } else {
        match c_op(op) {
            Some(c) => Some("(("@ + l + ") "@ + c + " ("@ + r + "))"@),
            None => None,
        }
    }
}

/// The binary operator that a many-argument operator folds with: `sum` and `prod` are the
/// many-argument spellings of `+` and `*`.
pub open spec fn folding_op(op: Seq<char>) -> Seq<char> {
    if op == "sum"@ {
        "+"@
    } else if op == "prod"@ {
        "*"@
    } else {
        op
    }
}

pub open spec fn is_binary_op(op: Seq<char>) -> bool {
    op == "min"@ || op == "max"@ || op == "xor"@ || c_op(op) is Some
}

/// The texts folded from the left with a binary operator.
pub open spec fn folded(op: Seq<char>, vals: Seq<Seq<char>>) -> Seq<char>
    decreases vals.len(),
{
    if vals.len() <= 1 {
        vals[0]
    } else {
        match binary_text(op, folded(op, vals.drop_last()), vals.last()) {
            Some(t) => t,
            None => Seq::empty(),
        }
    }
}

/// What an expression generates: its text, and what is emitted beside it.
pub open spec fn value(env: Env, st: Emitted, names: Seq<Seq<char>>, e: Expr) -> (Outcome, Emitted)
    decreases e, 0int,
{
    match *e.kind {
        ExprKind::Variable(name) => (
            refused(
                "internal error: bare Variable('"@ + name@
                    + "') reached codegen outside a Dependence — Normalize should have wrapped every Variable in an identity Dependence"@,
            ),
            st,
        ),
        ExprKind::Bool(_) | ExprKind::Int(_) | ExprKind::Real(_) => (
            Ok(constant_text(*e.kind)->Some_0),
            st,
        ),
        ExprKind::Dependence { function, operand } => (
            dependence_text(env, names, function, *operand.kind),
            st,
        ),
        ExprKind::IndexFunction { function } => (index_function_text(names, function), st),
        ExprKind::IndexPolynomial => (
            refused("val{...} (polynomial-valued index expression) codegen not implemented this session"@),
            st,
        ),
        ExprKind::If { cond, then_branch, else_branch } => match value(env, st, names, cond) {
            (Err(f), s1) => (Err(f), s1),
            (Ok(c), s1) => match value(env, s1, names, then_branch) {
                (Err(f), s2) => (Err(f), s2),
                (Ok(t), s2) => match value(env, s2, names, else_branch) {
                    (Err(f), s3) => (Err(f), s3),
                    (Ok(e), s3) => (Ok(ternary(c, t, e)), s3),
                },
            },
        },
        ExprKind::Restrict { operand } => value(env, st, names, operand),
        ExprKind::AutoRestrict { operand } => value(env, st, names, operand),
        ExprKind::Case { branches } => if branches@.len() == 0 {
            (refused("case with zero branches"@), st)
        } else {
            case_value(env, st, names, branches@)
        },
        ExprKind::Reduce { is_arg_reduce, operator, body_context, body, projection, domain } => {
            if is_arg_reduce {
                (
                    refused(
                        "argreduce codegen not implemented (unseen across the whole fixture corpus)"@,
                    ),
                    st,
                )
            } else {
                match env.backend {
                    Backend::WriteC => reduce_value(
                        env,
                        st,
                        names,
                        operator,
                        views(body_context@),
                        body,
                        domain,
                    ),
                    Backend::ScheduledC => (
                        refused(
                            "a Reduce nested directly inside another Reduce's body is not implemented — the one case normalize_reduction doesn't hoist (§7.3, §11)"@,
                        ),
                        st,
                    ),
                }
            }
        },
        ExprKind::Convolution { .. } => (
            refused(
                "Convolution codegen not implemented — should be unreachable, since alpha_model::domain's own documented gap means lowering already excludes any equation containing one"@,
            ),
            st,
        ),
        ExprKind::Select { .. } => (
            refused("select {relation} from E codegen not implemented this session"@),
            st,
        ),
        ExprKind::MultiArg { operator, args } => match values(env, st, names, args@) {
            (Err(f), s1) => (Err(f), s1),
            (Ok(vals), s1) => match operator {
                Operator::External(name) => (
                    Ok(name@ + "("@ + joined(vals, ", "@) + ")"@),
                    Emitted { externals: with_name(s1.externals, name@), ..s1 },
                ),
                Operator::Named(op) => (
                    if vals.len() == 0 {
                        refused("multi-arg with zero operands"@)
                    } else if !is_binary_op(folding_op(op@)) {
                        refused("unknown multi-arg operator '"@ + op@ + "'"@)
                    } else {
                        Ok(folded(folding_op(op@), vals))
                    },
                    s1,
                ),
            },
        },
        ExprKind::Binary { operator, lhs, rhs } => match value(env, st, names, lhs) {
            (Err(f), s1) => (Err(f), s1),
            (Ok(l), s1) => match value(env, s1, names, rhs) {
                (Err(f), s2) => (Err(f), s2),
                (Ok(r), s2) => (
                    match binary_text(operator@, l, r) {
                        Some(t) => Ok(t),
                        None => refused("unknown binary operator '"@ + operator@ + "'"@),
                    },
                    s2,
                ),
            },
        },
        ExprKind::Unary { operator, operand } => match value(env, st, names, operand) {
            (Err(f), s1) => (Err(f), s1),
            (Ok(v), s1) => (
                if operator@ == "-"@ {
                    Ok("(-("@ + v + "))"@)
                } else if operator@ == "not"@ {
                    Ok("(!("@ + v + "))"@)
                } else {
                    refused("unknown unary operator '"@ + operator@ + "'"@)
                },
                s1,
            ),
        },
    }
}

/// The branches tried in order, each under the condition of its context; the last one needs none.
/// They are generated from the last to the first.
pub open spec fn case_value(env: Env, st: Emitted, names: Seq<Seq<char>>, branches: Seq<Expr>) -> (
    Outcome,
    Emitted,
)
    decreases branches, 0int,
{
    if branches.len() == 0 {
        (Ok(Seq::empty()), st)
    } else if branches.len() == 1 {
        value(env, st, names, branches[0])
    } else {
        match case_value(env, st, names, branches.subrange(1, branches.len() as int)) {
            (Err(f), s1) => (Err(f), s1),
            (Ok(rest), s1) => match branches[0].context {
                None => (
                    refused(
                        "case branch missing a context domain — codegen must run after Normalize's context refresh"@,
                    ),
                    s1,
                ),
                Some(guard) => match value(env, s1, names, branches[0]) {
                    (Err(f), s2) => (Err(f), s2),
                    (Ok(v), s2) => (Ok(ternary(guard.filled(names), v, rest)), s2),
                },
            },
        }
    }
}

/// What a list of expressions generates, from the first to the last.
pub open spec fn values(env: Env, st: Emitted, names: Seq<Seq<char>>, es: Seq<Expr>) -> (
    Outcomes,
    Emitted,
)
    decreases es, 0int,
{
    if es.len() == 0 {
        (Ok(Seq::empty()), st)
    } else {
        match values(env, st, names, es.drop_last()) {
            (Err(f), s1) => (Err(f), s1),
            (Ok(vs), s1) => match value(env, s1, names, es.last()) {
                (Err(f), s2) => (Err(f), s2),
                (Ok(v), s2) => (Ok(vs.push(v)), s2),
            },
        }
    }
}

/// The C text of an expression whose indices go by `names`.
pub fn gen_value(g: &mut Gen, names: &Vec<String>, e: &Expr) -> (r: Result<CExpr>)
    requires
        expr_wf(*e),
    ensures
        final(g).env() == old(g).env(),
        (outcome(r), final(g).emitted()) == value(
            old(g).env(),
            old(g).emitted(),
            views(names@),
            *e,
        ),
    decreases e, 0int,
{
    match &*e.kind {
        ExprKind::Variable(name) => Err(
            CodegenError::Unsupported(
                cat3(
                    "internal error: bare Variable('",
                    name.as_str(),
                    "') reached codegen outside a Dependence — Normalize should have wrapped every Variable in an identity Dependence",
                ),
            ),
        ),
        ExprKind::Bool(b) => Ok(
            raw(
                if *b {
                    "1.0f".to_owned()
                } else {
                    "0.0f".to_owned()
                },
            ),
        ),
        ExprKind::Int(s) => Ok(raw(cat3("((float)(", s.as_str(), "))"))),
        ExprKind::Real(s) => Ok(raw(cat3("((float)(", s.as_str(), "))"))),
        ExprKind::Dependence { function, operand } => gen_dependence(g, names, function, operand),
        ExprKind::IndexFunction { function } => gen_index_function(names, function),
        ExprKind::IndexPolynomial => Err(
            unsupported(
                "val{...} (polynomial-valued index expression) codegen not implemented this session",
            ),
        ),
        ExprKind::If { cond, then_branch, else_branch } => {
            let c = match gen_value(g, names, cond) {
                Ok(c) => c,
                Err(e) => return Err(e),
            };
            let t = match gen_value(g, names, then_branch) {
                Ok(t) => t,
                Err(e) => return Err(e),
            };
            let e2 = match gen_value(g, names, else_branch) {
                Ok(e2) => e2,
                Err(e) => return Err(e),
            };
            Ok(CExpr::Ternary(Box::new(c), Box::new(t), Box::new(e2)))
        },
        ExprKind::Restrict { operand } => gen_value(g, names, operand),
        ExprKind::AutoRestrict { operand } => gen_value(g, names, operand),
        ExprKind::Case { branches } => gen_case(g, names, branches),
        ExprKind::Reduce { is_arg_reduce, operator, body_context, body, projection, domain } => {
            if *is_arg_reduce {
                return Err(
                    unsupported(
                        "argreduce codegen not implemented (unseen across the whole fixture corpus)",
                    ),
                );
            }
            match g.backend {
                Backend::WriteC => gen_reduce(g, names, operator, body_context, body, domain),
                Backend::ScheduledC => Err(
                    unsupported(
                        "a Reduce nested directly inside another Reduce's body is not implemented — the one case normalize_reduction doesn't hoist (§7.3, §11)",
                    ),
                ),
            }
        },
        ExprKind::Convolution { .. } => Err(
            unsupported(
                "Convolution codegen not implemented — should be unreachable, since alpha_model::domain's own documented gap means lowering already excludes any equation containing one",
            ),
        ),
        ExprKind::Select { .. } => Err(
            unsupported("select {relation} from E codegen not implemented this session"),
        ),
        ExprKind::MultiArg { operator, args } => gen_multi_arg(g, names, operator, args),
        ExprKind::Binary { operator, lhs, rhs } => {
            let l = match gen_value(g, names, lhs) {
                Ok(l) => l,
                Err(e) => return Err(e),
            };
            let r = match gen_value(g, names, rhs) {
                Ok(r) => r,
                Err(e) => return Err(e),
            };
            gen_binary(operator.as_str(), l, r)
        },
        ExprKind::Unary { operator, operand } => {
            let v = match gen_value(g, names, operand) {
                Ok(v) => v,
                Err(e) => return Err(e),
            };
            gen_unary(operator.as_str(), v)
        },
    }
}

/// A read of a variable through an affine function of the ambient indices.
pub fn gen_dependence(
    g: &Gen,
    names: &Vec<String>,
    function: &AffineFunction,
    operand: &Expr,
) -> (r: Result<CExpr>)
    ensures
        outcome(r) == dependence_text(g.env(), views(names@), *function, *operand.kind),
{
    match &*operand.kind {
        ExprKind::Bool(b) => Ok(
            raw(
                if *b {
                    "1.0f".to_owned()
                } else {
                    "0.0f".to_owned()
                },
            ),
        ),
        ExprKind::Int(s) => Ok(raw(cat3("((float)(", s.as_str(), "))"))),
        ExprKind::Real(s) => Ok(raw(cat3("((float)(", s.as_str(), "))"))),
        ExprKind::Variable(name) => {
            let info = match g.variable(name.as_str()) {
                Some(info) => info,
                None => return Err(
                    CodegenError::Unsupported(
                        cat3("reference to undeclared variable '", name.as_str(), "'"),
                    ),
                ),
            };
            if function.n_in as u64 != names.len() as u64 {
                return Err(
                    CodegenError::Unsupported(
                        cat5(
                            "dependence function arity (",
                            dec_u32(function.n_in).as_str(),
                            ") doesn't match the ambient index count (",
                            dec_usize(names.len()).as_str(),
                            ")",
                        ),
                    ),
                );
            }
            if function.outputs.len() as u64 != info.ndims as u64 {
                return Err(
                    CodegenError::Unsupported(
                        cat3(
                            "dependence function's output arity doesn't match '",
                            name.as_str(),
                            "''s own dimensionality",
                        ),
                    ),
                );
            }
            let idx = function.rename_inputs(names);
            Ok(raw(g.render_read(name.as_str(), info.role, &idx)))
        },
        other => Err(
            CodegenError::Unsupported(
                cat3(
                    "internal error: Dependence child is ",
                    other_kind_name(other),
                    " (Normalize guarantees Variable or a constant)",
                ),
            ),
        ),
    }
}

pub fn gen_index_function(names: &Vec<String>, function: &AffineFunction) -> (r: Result<CExpr>)
    ensures
        outcome(r) == index_function_text(views(names@), *function),
{
    if function.outputs.len() != 1 {
        return Err(unsupported("val(f) codegen only implemented for a single-output function"));
    }
    if function.n_in as u64 != names.len() as u64 {
        return Err(unsupported("val(f) function's arity doesn't match the ambient index count"));
    }
    Ok(raw(cat3("((float)(", function.outputs[0].fill(names).as_str(), "))")))
}

/// A chain of conditional expressions over the branches.
pub fn gen_case(g: &mut Gen, names: &Vec<String>, branches: &Vec<Expr>) -> (r: Result<CExpr>)
    requires
        exprs_wf(branches@),
    ensures
        final(g).env() == old(g).env(),
        (outcome(r), final(g).emitted()) == (if branches@.len() == 0 {
            (refused("case with zero branches"@), old(g).emitted())
        } else {
            case_value(old(g).env(), old(g).emitted(), views(names@), branches@)
        }),
    decreases branches, 0int,
{
    if branches.len() == 0 {
        return Err(unsupported("case with zero branches"));
    }
    let mut i: usize = branches.len() - 1;
    let mut result = match gen_value(g, names, &branches[i]) {
        Ok(v) => v,
        Err(e) => {
            proof {
                lemma_case_stops(
                    old(g).env(),
                    old(g).emitted(),
                    views(names@),
                    branches@,
                    i as int,
                    e@,
                    g.emitted(),
                );
            }
            return Err(e);
        },
    };
    let ghost n = branches@.len() as int;
    while i > 0
        invariant
            n == branches@.len(),
            i < n,
            exprs_wf(branches@),
            g.env() == old(g).env(),
            (Ok::<Seq<char>, Failure>(result@), g.emitted()) == case_value(
                old(g).env(),
                old(g).emitted(),
                views(names@),
                branches@.subrange(i as int, n),
            ),
        decreases i,
    {
        i -= 1;
        let ghost tail = branches@.subrange(i as int, n);
        proof {
            assert(tail.subrange(1, tail.len() as int) =~= branches@.subrange(i + 1, n));
            assert(tail[0] == branches@[i as int]);
        }
        let cond = match &branches[i].context {
            Some(guard) => raw(guard.fill(names)),
            None => {
                let e = unsupported(
                    "case branch missing a context domain — codegen must run after Normalize's context refresh",
                );
                proof {
                    lemma_case_stops(
                        old(g).env(),
                        old(g).emitted(),
                        views(names@),
                        branches@,
                        i as int,
                        e@,
                        g.emitted(),
                    );
                }
                return Err(e);
            },
        };
        let val = match gen_value(g, names, &branches[i]) {
            Ok(v) => v,
            Err(e) => {
                proof {
                    lemma_case_stops(
                        old(g).env(),
                        old(g).emitted(),
                        views(names@),
                        branches@,
                        i as int,
                        e@,
                        g.emitted(),
                    );
                }
                return Err(e);
            },
        };
        result = CExpr::Ternary(Box::new(cond), Box::new(val), Box::new(result));
    }
    proof {
        assert(branches@.subrange(0, n) =~= branches@);
    }
    Ok(result)
}

/// A failure among the last branches is the failure of the whole chain.
proof fn lemma_case_stops(
    env: Env,
    st: Emitted,
    names: Seq<Seq<char>>,
    branches: Seq<Expr>,
    from: int,
    f: Failure,
    end: Emitted,
)
    requires
        0 <= from < branches.len(),
        case_value(env, st, names, branches.subrange(from, branches.len() as int)) == (
            Err::<Seq<char>, Failure>(f),
            end,
        ),
    ensures
        case_value(env, st, names, branches) == (Err::<Seq<char>, Failure>(f), end),
    decreases from,
{
    let n = branches.len() as int;
    if from == 0 {
        assert(branches.subrange(0, n) =~= branches);
    } else {
        let tail = branches.subrange(from - 1, n);
        assert(tail.subrange(1, tail.len() as int) =~= branches.subrange(from, n));
        lemma_case_stops(env, st, names, branches, from - 1, f, end);
    }
}

pub fn gen_binary(operator: &str, l: CExpr, r: CExpr) -> (res: Result<CExpr>)
    ensures
        outcome(res) == match binary_text(operator@, l@, r@) {
            Some(t) => Ok::<Seq<char>, Failure>(t),
            None => refused("unknown binary operator '"@ + operator@ + "'"@),
        },
{
    match combine_two(operator, l, r) {
        Some(e) => Ok(e),
        None => Err(
            CodegenError::Unsupported(cat3("unknown binary operator '", operator, "'")),
        ),
    }
}

fn combine_two(operator: &str, l: CExpr, r: CExpr) -> (res: Option<CExpr>)
    ensures
        match res {
            Some(e) => binary_text(operator@, l@, r@) == Some(e@),
            None => binary_text(operator@, l@, r@) is None,
        },
{
    if str_eq(operator, "min") || str_eq(operator, "max") {
        let mut args: Vec<CExpr> = Vec::new();
        push_expr(&mut args, l);
        push_expr(&mut args, r);
        proof {
            assert(exprs_text(args@) =~= seq![l@, r@]);
        }
        return Some(CExpr::Call(operator.to_owned(), args));
    }
    let l = l.to_text();
    let r = r.to_text();
    if str_eq(operator, "xor") {
        return Some(raw(cat5("(((", l.as_str(), ") != 0) != ((", r.as_str(), ") != 0))")));
    }
    match binary_c_op(operator) {
        Some(c_op) => Some(raw(cat7("((", l.as_str(), ") ", c_op, " (", r.as_str(), "))"))),
        None => None,
    }
}

pub fn gen_unary(operator: &str, v: CExpr) -> (res: Result<CExpr>)
    ensures
        outcome(res) == (if operator@ == "-"@ {
            Ok::<Seq<char>, Failure>("(-("@ + v@ + "))"@)
        } else if operator@ == "not"@ {
            Ok("(!("@ + v@ + "))"@)
        } else {
            refused("unknown unary operator '"@ + operator@ + "'"@)
        }),
{
    let v = v.to_text();
    if str_eq(operator, "-") {
        Ok(raw(cat3("(-(", v.as_str(), "))")))
    } else if str_eq(operator, "not") {
        Ok(raw(cat3("(!(", v.as_str(), "))")))
    } else {
        Err(CodegenError::Unsupported(cat3("unknown unary operator '", operator, "'")))
    }
}

/// The texts of a list of expressions.
pub fn gen_values(g: &mut Gen, names: &Vec<String>, es: &Vec<Expr>) -> (r: Result<Vec<CExpr>>)
    requires
        exprs_wf(es@),
    ensures
        final(g).env() == old(g).env(),
        (outcomes(r), final(g).emitted()) == values(
            old(g).env(),
            old(g).emitted(),
            views(names@),
            es@,
        ),
    decreases es, 0int,
{
    let mut vals: Vec<CExpr> = Vec::new();
    let mut i: usize = 0;
    proof {
        assert(es@.take(0) =~= Seq::empty());
        assert(exprs_text(vals@) =~= Seq::empty());
    }
    while i < es.len()
        invariant
            i <= es.len(),
            exprs_wf(es@),
            g.env() == old(g).env(),
            (Ok::<Seq<Seq<char>>, Failure>(exprs_text(vals@)), g.emitted()) == values(
                old(g).env(),
                old(g).emitted(),
                views(names@),
                es@.take(i as int),
            ),
        decreases es.len() - i,
    {
        proof {
            assert(es@.take(i + 1).drop_last() =~= es@.take(i as int));
            assert(es@.take(i + 1).last() == es@[i as int]);
        }
        match gen_value(g, names, &es[i]) {
            Ok(v) => push_expr(&mut vals, v),
            Err(e) => {
                proof {
                    lemma_values_stop(
                        old(g).env(),
                        old(g).emitted(),
                        views(names@),
                        es@,
                        i + 1,
                        e@,
                        g.emitted(),
                    );
                }
                return Err(e);
            },
        }
        i += 1;
    }
    proof {
        assert(es@.take(i as int) =~= es@);
    }
    Ok(vals)
}

/// A failure among the first expressions is the failure of the whole list.
proof fn lemma_values_stop(
    env: Env,
    st: Emitted,
    names: Seq<Seq<char>>,
    es: Seq<Expr>,
    upto: int,
    f: Failure,
    end: Emitted,
)
    requires
        0 < upto <= es.len(),
        values(env, st, names, es.take(upto)) == (Err::<Seq<Seq<char>>, Failure>(f), end),
    ensures
        values(env, st, names, es) == (Err::<Seq<Seq<char>>, Failure>(f), end),
    decreases es.len() - upto,
{
    if upto == es.len() {
        assert(es.take(upto) =~= es);
    } else {
        assert(es.take(upto + 1).drop_last() =~= es.take(upto));
        lemma_values_stop(env, st, names, es, upto + 1, f, end);
    }
}

/// An operator applied to any number of operands.
pub fn gen_multi_arg(g: &mut Gen, names: &Vec<String>, operator: &Operator, args: &Vec<Expr>) -> (r:
    Result<CExpr>)
    requires
        exprs_wf(args@),
    ensures
        final(g).env() == old(g).env(),
        (outcome(r), final(g).emitted()) == (match values(
            old(g).env(),
            old(g).emitted(),
            views(names@),
            args@,
        ) {
            (Err(f), s1) => (Err::<Seq<char>, Failure>(f), s1),
            (Ok(vals), s1) => match *operator {
                Operator::External(name) => (
                    Ok(name@ + "("@ + joined(vals, ", "@) + ")"@),
                    Emitted { externals: with_name(s1.externals, name@), ..s1 },
                ),
                Operator::Named(op) => (
                    if vals.len() == 0 {
                        refused("multi-arg with zero operands"@)
                    } else if !is_binary_op(folding_op(op@)) {
                        refused("unknown multi-arg operator '"@ + op@ + "'"@)
                    } else {
                        Ok(folded(folding_op(op@), vals))
                    },
                    s1,
                ),
            },
        }),
    decreases args, 1int,
{
    let vals = match gen_values(g, names, args) {
        Ok(vals) => vals,
        Err(e) => return Err(e),
    };
    match operator {
        Operator::External(name) => {
            g.add_external(name.as_str());
            Ok(CExpr::Call(name.clone(), vals))
        },
        Operator::Named(op) => {
            if vals.len() == 0 {
                return Err(unsupported("multi-arg with zero operands"));
            }
            let fold_op: &str = if str_eq(op.as_str(), "sum") {
                "+"
            } else if str_eq(op.as_str(), "prod") {
                "*"
            } else {
                op.as_str()
            };
            if !known_binary_op(fold_op) {
                return Err(
                    CodegenError::Unsupported(
                        cat3("unknown multi-arg operator '", op.as_str(), "'"),
                    ),
                );
            }
            Ok(fold_values(fold_op, vals))
        },
    }
}

fn known_binary_op(op: &str) -> (r: bool)
    ensures
        r == is_binary_op(op@),
{
    str_eq(op, "min") || str_eq(op, "max") || str_eq(op, "xor") || binary_c_op(op).is_some()
}

fn fold_values(op: &str, vals: Vec<CExpr>) -> (r: CExpr)
    requires
        vals.len() > 0,
        is_binary_op(op@),
    ensures
        r@ == folded(op@, exprs_text(vals@)),
    decreases vals.len(),
{
    let mut vals = vals;
    let ghost all = vals@;
    let last = match vals.pop() {
        Some(last) => last,
        None => CExpr::Raw(String::new()),
    };
    if vals.len() == 0 {
        return last;
    }
    proof {
        assert(exprs_text(vals@) =~= exprs_text(all).drop_last());
        assert(exprs_text(all).last() == last@);
    }
    let acc = fold_values(op, vals);
    match combine_two(op, acc, last) {
        Some(e) => e,
        None => CExpr::Raw(String::new()),
    }
}

/// The equations of one variable tried in order, each under the guard of its body; the last one
/// needs none. They are generated from the last to the first.
pub open spec fn piecewise_value(
    env: Env,
    st: Emitted,
    names: Seq<Seq<char>>,
    eqs: Seq<(String, StandardEquation)>,
) -> (Outcome, Emitted)
    decreases eqs.len(),
{
    if eqs.len() == 0 {
        (Ok(Seq::empty()), st)
    } else if eqs.len() == 1 {
        value(env, st, names, eqs[0].1.expr)
    } else {
        match piecewise_value(env, st, names, eqs.subrange(1, eqs.len() as int)) {
            (Err(f), s1) => (Err(f), s1),
            (Ok(rest), s1) => match value(env, s1, names, eqs[0].1.expr) {
                (Err(f), s2) => (Err(f), s2),
                (Ok(v), s2) => (Ok(ternary(eqs[0].0@, v, rest)), s2),
            },
        }
    }
}

/// A failure among the last equations is the failure of the whole chain.
proof fn lemma_piecewise_stops(
    env: Env,
    st: Emitted,
    names: Seq<Seq<char>>,
    eqs: Seq<(String, StandardEquation)>,
    from: int,
)
    requires
        0 <= from < eqs.len(),
        piecewise_value(env, st, names, eqs.subrange(from, eqs.len() as int)).0 is Err,
    ensures
        piecewise_value(env, st, names, eqs) == piecewise_value(
            env,
            st,
            names,
            eqs.subrange(from, eqs.len() as int),
        ),
    decreases from,
{
    let n = eqs.len() as int;
    if from == 0 {
        assert(eqs.subrange(0, n) =~= eqs);
    } else {
        let tail = eqs.subrange(from - 1, n);
        assert(tail.subrange(1, tail.len() as int) =~= eqs.subrange(from, n));
        lemma_piecewise_stops(env, st, names, eqs, from - 1);
    }
}

/// The value that a variable's equations give it.
pub fn gen_piecewise(
    g: &mut Gen,
    names: &Vec<String>,
    eqs: &Vec<(&String, &StandardEquation)>,
) -> (r: Result<CExpr>)
    requires
        eqs@.len() > 0,
        forall|i: int| 0 <= i < eqs@.len() ==> expr_wf((#[trigger] eqs@[i]).1.expr),
    ensures
        final(g).env() == old(g).env(),
        (outcome(r), final(g).emitted()) == piecewise_value(
            old(g).env(),
            old(g).emitted(),
            views(names@),
            referred(eqs@),
        ),
{
    let mut i: usize = eqs.len() - 1;
    let ghost all = referred(eqs@);
    let ghost n = all.len() as int;
    let mut result = match gen_value(g, names, &eqs[i].1.expr) {
        Ok(v) => v,
        Err(e) => {
            proof {
                lemma_piecewise_stops(old(g).env(), old(g).emitted(), views(names@), all, i as int);
            }
            return Err(e);
        },
    };
    while i > 0
        invariant
            all == referred(eqs@),
            n == all.len(),
            i < n,
            forall|i: int| 0 <= i < eqs@.len() ==> expr_wf((#[trigger] eqs@[i]).1.expr),
            g.env() == old(g).env(),
            (Ok::<Seq<char>, Failure>(result@), g.emitted()) == piecewise_value(
                old(g).env(),
                old(g).emitted(),
                views(names@),
                all.subrange(i as int, n),
            ),
        decreases i,
    {
        i -= 1;
        let ghost tail = all.subrange(i as int, n);
        proof {
            assert(tail.subrange(1, tail.len() as int) =~= all.subrange(i + 1, n));
            assert(tail[0] == all[i as int]);
        }
        let cond = raw(eqs[i].0.clone());
        let val = match gen_value(g, names, &eqs[i].1.expr) {
            Ok(v) => v,
            Err(e) => {
                proof {
                    lemma_piecewise_stops(
                        old(g).env(),
                        old(g).emitted(),
                        views(names@),
                        all,
                        i as int,
                    );
                }
                return Err(e);
            },
        };
        result = CExpr::Ternary(Box::new(cond), Box::new(val), Box::new(result));
    }
    proof {
        assert(all.subrange(0, n) =~= all);
    }
    Ok(result)
}

} // verus!
