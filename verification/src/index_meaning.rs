//! The value of an index expression, and that the ways of generating code for it keep it.
use crate::dataflow::{int_op, wrap64, BoolOp, IntOp, Val};
use crate::hugr_lowering::{
    folded_bool, folded_value64, index_value64, predicate_value64, rounded, var_value,
};
use crate::scheduled_ir::{CompareOp, IndexModel, PredicateModel};
use crate::scheduledc::{factor_level, index_text, plain_factor, variadic_text};
use crate::text::dec_int;
use vstd::prelude::*;

verus! {

/// A choice of how to divide.
pub struct Arithmetic {
    pub quotient: spec_fn(int, int) -> int,
    pub remainder: spec_fn(int, int) -> int,
    pub floor: spec_fn(int, int) -> int,
    pub ceiling: spec_fn(int, int) -> int,
}

pub open spec fn smaller(a: int, b: int) -> int {
    if a <= b { a } else { b }
}

pub open spec fn larger(a: int, b: int) -> int {
    if a >= b { a } else { b }
}

/// The value of an index expression, given the values of its variables.
pub open spec fn index_value(m: IndexModel, a: Arithmetic, env: spec_fn(Seq<char>) -> int) -> int
    decreases m,
{
    match m {
        IndexModel::Constant(n) => n,
        IndexModel::Variable(s) => env(s),
        IndexModel::Add(l, r) => index_value(*l, a, env) + index_value(*r, a, env),
        IndexModel::Sub(l, r) => index_value(*l, a, env) - index_value(*r, a, env),
        IndexModel::Mul(l, r) => index_value(*l, a, env) * index_value(*r, a, env),
        IndexModel::Div(l, r) => (a.quotient)(index_value(*l, a, env), index_value(*r, a, env)),
        IndexModel::FloorDiv(l, r) => (a.floor)(index_value(*l, a, env), index_value(*r, a, env)),
        IndexModel::CeilDiv(l, r) => (a.ceiling)(index_value(*l, a, env), index_value(*r, a, env)),
        IndexModel::Mod(l, r) => (a.remainder)(index_value(*l, a, env), index_value(*r, a, env)),
        IndexModel::Min(v) => smallest(v, a, env),
        IndexModel::Max(v) => largest(v, a, env),
    }
}

/// The smallest of several values; of none, zero.
pub open spec fn smallest(v: Seq<IndexModel>, a: Arithmetic, env: spec_fn(Seq<char>) -> int) -> int
    decreases v,
{
    if v.len() == 0 {
        0
    } else if v.len() == 1 {
        index_value(v[0], a, env)
    } else {
        smaller(smallest(v.drop_last(), a, env), index_value(v.last(), a, env))
    }
}

/// The largest of several values; of none, zero.
pub open spec fn largest(v: Seq<IndexModel>, a: Arithmetic, env: spec_fn(Seq<char>) -> int) -> int
    decreases v,
{
    if v.len() == 0 {
        0
    } else if v.len() == 1 {
        index_value(v[0], a, env)
    } else {
        larger(largest(v.drop_last(), a, env), index_value(v.last(), a, env))
    }
}

/// The division of integers by positive ones: quotients round down, unless they are to round up,
/// and remainders are not negative.
pub open spec fn rounding_down() -> Arithmetic {
    Arithmetic {
        quotient: |x: int, y: int| x / y,
        remainder: |x: int, y: int| x % y,
        floor: |x: int, y: int| x / y,
        ceiling: |x: int, y: int| if x % y == 0 { x / y } else { x / y + 1 },
    }
}

pub open spec fn in_range64(x: int) -> bool {
    -0x8000_0000_0000_0000 <= x < 0x8000_0000_0000_0000
}

/// The expression has a variable for each name in it, stays in the range of 64 bits throughout,
/// and divides by positive numbers only.
pub open spec fn computable64(
    m: IndexModel,
    vars: Seq<(Seq<char>, Val)>,
    env: spec_fn(Seq<char>) -> int,
) -> bool
    decreases m,
{
    let a = rounding_down();
    &&& in_range64(index_value(m, a, env))
    &&& match m {
        IndexModel::Constant(_) => true,
        IndexModel::Variable(s) => var_value(vars, s) == Some(Val::Int(env(s))),
        IndexModel::Add(l, r) => computable64(*l, vars, env) && computable64(*r, vars, env),
        IndexModel::Sub(l, r) => computable64(*l, vars, env) && computable64(*r, vars, env),
        IndexModel::Mul(l, r) => computable64(*l, vars, env) && computable64(*r, vars, env),
        IndexModel::Div(l, r) => computable64(*l, vars, env) && computable64(*r, vars, env)
            && index_value(*r, a, env) > 0,
        IndexModel::FloorDiv(l, r) => computable64(*l, vars, env) && computable64(*r, vars, env)
            && index_value(*r, a, env) > 0,
        IndexModel::CeilDiv(l, r) => computable64(*l, vars, env) && computable64(*r, vars, env)
            && index_value(*r, a, env) > 0,
        IndexModel::Mod(l, r) => computable64(*l, vars, env) && computable64(*r, vars, env)
            && index_value(*r, a, env) > 0,
        IndexModel::Min(v) => v.len() > 0 && all_computable64(v, vars, env),
        IndexModel::Max(v) => v.len() > 0 && all_computable64(v, vars, env),
    }
}

pub open spec fn all_computable64(
    v: Seq<IndexModel>,
    vars: Seq<(Seq<char>, Val)>,
    env: spec_fn(Seq<char>) -> int,
) -> bool
    decreases v,
{
    if v.len() == 0 {
        true
    } else {
        all_computable64(v.drop_last(), vars, env) && computable64(v.last(), vars, env)
    }
}

proof fn lemma_wrap(x: int)
    requires
        in_range64(x),
    ensures
        wrap64(x) == x,
{
}

proof fn lemma_divided(x: int, y: int)
    requires
        in_range64(x),
        0 < y < 0x8000_0000_0000_0000,
    ensures
        int_op(IntOp::Div, x, y) == Val::Int(x / y),
        int_op(IntOp::Mod, x, y) == Val::Int(x % y),
        0 <= x % y < y,
        in_range64(x / y),
{
    assert(0 <= x % y < y) by (nonlinear_arith)
        requires
            y > 0,
    ;
    lemma_wrap(x % y);
    assert(-0x8000_0000_0000_0000 <= x / y < 0x8000_0000_0000_0000) by (nonlinear_arith)
        requires
            -0x8000_0000_0000_0000 <= x < 0x8000_0000_0000_0000,
            y > 0,
    ;
}

proof fn lemma_folded(
    op: IntOp,
    v: Seq<IndexModel>,
    vars: Seq<(Seq<char>, Val)>,
    env: spec_fn(Seq<char>) -> int,
)
    requires
        v.len() > 0,
        op == IntOp::Min || op == IntOp::Max,
        all_computable64(v, vars, env),
    ensures
        folded_value64(op, v, vars) == Val::Int(
            if op == IntOp::Min {
                smallest(v, rounding_down(), env)
            } else {
                largest(v, rounding_down(), env)
            },
        ),
    decreases v, 0int,
{
    lowering_keeps_the_value(v.last(), vars, env);
    if v.len() == 1 {
        assert(v[0] == v.last());
    } else {
        lemma_folded(op, v.drop_last(), vars, env);
    }
}

/// A lowered index expression computes its value, as long as that and every intermediate value is
/// in range and divisors are positive.
pub proof fn lowering_keeps_the_value(
    m: IndexModel,
    vars: Seq<(Seq<char>, Val)>,
    env: spec_fn(Seq<char>) -> int,
)
    requires
        computable64(m, vars, env),
    ensures
        index_value64(m, vars) == Val::Int(index_value(m, rounding_down(), env)),
    decreases m, 1int,
{
    let a = rounding_down();
    lemma_wrap(index_value(m, a, env));
    match m {
        IndexModel::Constant(_) | IndexModel::Variable(_) => {},
        IndexModel::Add(l, r) | IndexModel::Sub(l, r) | IndexModel::Mul(l, r) => {
            lowering_keeps_the_value(*l, vars, env);
            lowering_keeps_the_value(*r, vars, env);
        },
        IndexModel::Div(l, r) | IndexModel::Mod(l, r) | IndexModel::FloorDiv(l, r)
            | IndexModel::CeilDiv(l, r) => {
            lowering_keeps_the_value(*l, vars, env);
            lowering_keeps_the_value(*r, vars, env);
            let x = index_value(*l, a, env);
            let y = index_value(*r, a, env);
            assert(computable64(*l, vars, env) && in_range64(x)) by {
                reveal_with_fuel(computable64, 2);
            }
            assert(computable64(*r, vars, env) && in_range64(y)) by {
                reveal_with_fuel(computable64, 2);
            }
            lemma_divided(x, y);
            assert(rounded(Val::Int(x), Val::Int(y), false) == Val::Int(x / y));
            if m is CeilDiv {
                if x % y != 0 {
                    lemma_wrap(x / y + 1);
                }
                assert(rounded(Val::Int(x), Val::Int(y), true) == Val::Int(
                    if x % y == 0 { x / y } else { x / y + 1 },
                ));
            }
        },
        IndexModel::Min(v) => {
            lemma_folded(IntOp::Min, v, vars, env);
        },
        IndexModel::Max(v) => {
            lemma_folded(IntOp::Max, v, vars, env);
        },
    }
}

/// Whether a predicate holds, given the values of its variables.
pub open spec fn holds(p: PredicateModel, a: Arithmetic, env: spec_fn(Seq<char>) -> int) -> bool
    decreases p,
{
    match p {
        PredicateModel::Compare { op, lhs, rhs } => {
            let x = index_value(lhs, a, env);
            let y = index_value(rhs, a, env);
            match op {
                CompareOp::Eq => x == y,
                CompareOp::Le => x <= y,
                CompareOp::Lt => x < y,
                CompareOp::Ge => x >= y,
                CompareOp::Gt => x > y,
            }
        },
        PredicateModel::And(v) => all_hold(v, a, env),
        PredicateModel::Or(v) => some_holds(v, a, env),
        PredicateModel::Not(q) => !holds(*q, a, env),
        PredicateModel::Constant(b) => b,
    }
}

pub open spec fn all_hold(
    v: Seq<PredicateModel>,
    a: Arithmetic,
    env: spec_fn(Seq<char>) -> int,
) -> bool
    decreases v,
{
    v.len() == 0 || (all_hold(v.drop_last(), a, env) && holds(v.last(), a, env))
}

pub open spec fn some_holds(
    v: Seq<PredicateModel>,
    a: Arithmetic,
    env: spec_fn(Seq<char>) -> int,
) -> bool
    decreases v,
{
    v.len() > 0 && (some_holds(v.drop_last(), a, env) || holds(v.last(), a, env))
}

/// The index expressions of a predicate can be computed in 64 bits.
pub open spec fn decidable64(
    p: PredicateModel,
    vars: Seq<(Seq<char>, Val)>,
    env: spec_fn(Seq<char>) -> int,
) -> bool
    decreases p,
{
    match p {
        PredicateModel::Compare { op, lhs, rhs } => computable64(lhs, vars, env) && computable64(
            rhs,
            vars,
            env,
        ),
        PredicateModel::And(v) => all_decidable64(v, vars, env),
        PredicateModel::Or(v) => all_decidable64(v, vars, env),
        PredicateModel::Not(q) => decidable64(*q, vars, env),
        PredicateModel::Constant(_) => true,
    }
}

pub open spec fn all_decidable64(
    v: Seq<PredicateModel>,
    vars: Seq<(Seq<char>, Val)>,
    env: spec_fn(Seq<char>) -> int,
) -> bool
    decreases v,
{
    v.len() == 0 || (all_decidable64(v.drop_last(), vars, env) && decidable64(
        v.last(),
        vars,
        env,
    ))
}

proof fn lemma_junction(
    v: Seq<PredicateModel>,
    vars: Seq<(Seq<char>, Val)>,
    env: spec_fn(Seq<char>) -> int,
)
    requires
        all_decidable64(v, vars, env),
    ensures
        folded_bool(BoolOp::And, true, v, vars) == Val::Bool(all_hold(v, rounding_down(), env)),
        folded_bool(BoolOp::Or, false, v, vars) == Val::Bool(some_holds(v, rounding_down(), env)),
    decreases v, 0int,
{
    if v.len() > 0 {
        lemma_junction(v.drop_last(), vars, env);
        lowering_keeps_the_truth(v.last(), vars, env);
    }
}

/// A lowered predicate computes whether it holds, as long as its index expressions can be
/// computed.
pub proof fn lowering_keeps_the_truth(
    p: PredicateModel,
    vars: Seq<(Seq<char>, Val)>,
    env: spec_fn(Seq<char>) -> int,
)
    requires
        decidable64(p, vars, env),
    ensures
        predicate_value64(p, vars) == Val::Bool(holds(p, rounding_down(), env)),
    decreases p, 1int,
{
    match p {
        PredicateModel::Compare { op, lhs, rhs } => {
            lowering_keeps_the_value(lhs, vars, env);
            lowering_keeps_the_value(rhs, vars, env);
        },
        PredicateModel::And(v) => lemma_junction(v, vars, env),
        PredicateModel::Or(v) => lemma_junction(v, vars, env),
        PredicateModel::Not(q) => lowering_keeps_the_truth(*q, vars, env),
        PredicateModel::Constant(_) => {},
    }
}

/// An arithmetic expression of C.
pub enum CTree {
    Number(int),
    Name(Seq<char>),
    Parens(Box<CTree>),
    Call(Seq<char>, Box<CTree>, Box<CTree>),
    Binary(COp, Box<CTree>, Box<CTree>),
}

pub enum COp {
    Add,
    Sub,
    Mul,
    Div,
    Mod,
}

pub open spec fn op_text(op: COp) -> Seq<char> {
    match op {
        COp::Add => "+"@,
        COp::Sub => "-"@,
        COp::Mul => "*"@,
        COp::Div => "/"@,
        COp::Mod => "%"@,
    }
}

/// How strongly an operator binds: products more than sums.
pub open spec fn op_level(op: COp) -> int {
    match op {
        COp::Add | COp::Sub => 1,
        COp::Mul | COp::Div | COp::Mod => 2,
    }
}

pub open spec fn tree_level(t: CTree) -> int {
    match t {
        CTree::Binary(op, _, _) => op_level(op),
        _ => 3,
    }
}

/// The tree is one that C's grammar reads its text as: operators of one strength group from the
/// left, and an operand that binds less stands in parentheses.
pub open spec fn c_reads(t: CTree) -> bool
    decreases t,
{
    match t {
        CTree::Number(_) | CTree::Name(_) => true,
        CTree::Parens(x) => c_reads(*x),
        CTree::Call(_, x, y) => c_reads(*x) && c_reads(*y),
        CTree::Binary(op, x, y) => {
            &&& c_reads(*x)
            &&& c_reads(*y)
            &&& tree_level(*x) >= op_level(op)
            &&& tree_level(*y) > op_level(op)
        },
    }
}

pub open spec fn c_text(t: CTree) -> Seq<char>
    decreases t,
{
    match t {
        CTree::Number(n) => dec_int(n),
        CTree::Name(s) => s,
        CTree::Parens(x) => "("@ + c_text(*x) + ")"@,
        CTree::Call(f, x, y) => f + "("@ + c_text(*x) + ", "@ + c_text(*y) + ")"@,
        CTree::Binary(op, x, y) => c_text(*x) + " "@ + op_text(op) + " "@ + c_text(*y),
    }
}

pub open spec fn c_call(f: Seq<char>, a: Arithmetic, x: int, y: int) -> int {
    if f == "floord"@ {
        (a.floor)(x, y)
    } else if f == "ceild"@ {
        (a.ceiling)(x, y)
    } else if f == "min"@ {
        smaller(x, y)
    } else {
        larger(x, y)
    }
}

pub open spec fn c_value(t: CTree, a: Arithmetic, env: spec_fn(Seq<char>) -> int) -> int
    decreases t,
{
    match t {
        CTree::Number(n) => n,
        CTree::Name(s) => env(s),
        CTree::Parens(x) => c_value(*x, a, env),
        CTree::Call(f, x, y) => c_call(f, a, c_value(*x, a, env), c_value(*y, a, env)),
        CTree::Binary(op, x, y) => {
            let l = c_value(*x, a, env);
            let r = c_value(*y, a, env);
            match op {
                COp::Add => l + r,
                COp::Sub => l - r,
                COp::Mul => l * r,
                COp::Div => (a.quotient)(l, r),
                COp::Mod => (a.remainder)(l, r),
            }
        },
    }
}

/// What C reads `x op y` as, where `y` may be a chain of operators as strong as `op`.
spec fn chained(x: CTree, op: COp, y: CTree) -> CTree
    decreases y,
{
    match y {
        CTree::Binary(op2, yl, yr) => if op_level(op2) == op_level(op) {
            CTree::Binary(op2, Box::new(chained(x, op, *yl)), yr)
        } else {
            CTree::Binary(op, Box::new(x), Box::new(y))
        },
        _ => CTree::Binary(op, Box::new(x), Box::new(y)),
    }
}

spec fn in_parens(t: CTree, needed: bool) -> CTree {
    if needed {
        CTree::Parens(Box::new(t))
    } else {
        t
    }
}

/// The products in the chain that a tree starts with are all multiplications.
pub open spec fn multiplies_only(t: CTree) -> bool
    decreases t,
{
    match t {
        CTree::Binary(op, l, _) => if op_level(op) == 2 {
            op == COp::Mul && multiplies_only(*l)
        } else {
            true
        },
        _ => true,
    }
}

/// What C reads the text of an index expression as.
spec fn read_tree(m: IndexModel, parent: int) -> CTree
    decreases m,
{
    match m {
        IndexModel::Constant(n) => CTree::Number(n),
        IndexModel::Variable(s) => CTree::Name(s),
        IndexModel::Add(l, r) => in_parens(
            chained(read_tree(*l, 1), COp::Add, read_tree(*r, 1)),
            1 < parent,
        ),
        IndexModel::Sub(l, r) => in_parens(
            chained(read_tree(*l, 1), COp::Sub, read_tree(*r, 2)),
            1 < parent,
        ),
        IndexModel::Mul(l, r) => in_parens(
            chained(read_tree(*l, 2), COp::Mul, read_tree(*r, factor_level(*r))),
            2 < parent,
        ),
        IndexModel::Div(l, r) => in_parens(
            chained(read_tree(*l, 2), COp::Div, read_tree(*r, 3)),
            2 < parent,
        ),
        IndexModel::FloorDiv(l, r) => CTree::Call(
            "floord"@,
            Box::new(read_tree(*l, 0)),
            Box::new(read_tree(*r, 0)),
        ),
        IndexModel::CeilDiv(l, r) => CTree::Call(
            "ceild"@,
            Box::new(read_tree(*l, 0)),
            Box::new(read_tree(*r, 0)),
        ),
        IndexModel::Mod(l, r) => in_parens(
            chained(read_tree(*l, 2), COp::Mod, read_tree(*r, 3)),
            2 < parent,
        ),
        IndexModel::Min(v) => read_call("min"@, v, parent),
        IndexModel::Max(v) => read_call("max"@, v, parent),
    }
}

spec fn read_call(f: Seq<char>, v: Seq<IndexModel>, parent: int) -> CTree
    decreases v,
{
    if v.len() == 0 {
        CTree::Number(0)
    } else if v.len() == 1 {
        read_tree(v[0], parent)
    } else {
        CTree::Call(f, Box::new(read_call(f, v.drop_last(), 0)), Box::new(read_tree(v.last(), 0)))
    }
}

/// How strongly the text of an expression binds, in surroundings of the given strength.
pub open spec fn text_level(m: IndexModel, parent: int) -> int
    decreases m,
{
    match m {
        IndexModel::Add(_, _) | IndexModel::Sub(_, _) => if 1 < parent { 3 } else { 1 },
        IndexModel::Mul(_, _) | IndexModel::Div(_, _) | IndexModel::Mod(_, _) => if 2 < parent {
            3
        } else {
            2
        },
        IndexModel::Min(v) => if v.len() == 1 { text_level(v[0], parent) } else { 3 },
        IndexModel::Max(v) => if v.len() == 1 { text_level(v[0], parent) } else { 3 },
        _ => 3,
    }
}

proof fn lemma_chained(
    x: CTree,
    op: COp,
    y: CTree,
    a: Arithmetic,
    env: spec_fn(Seq<char>) -> int,
)
    requires
        c_reads(x),
        c_reads(y),
        tree_level(x) >= op_level(op),
        tree_level(y) >= op_level(op),
        tree_level(y) == op_level(op) ==> op == COp::Add || (op == COp::Mul && multiplies_only(y)),
    ensures
        c_reads(chained(x, op, y)),
        tree_level(chained(x, op, y)) == op_level(op),
        c_text(chained(x, op, y)) == c_text(x) + " "@ + op_text(op) + " "@ + c_text(y),
        c_value(chained(x, op, y), a, env) == c_value(
            CTree::Binary(op, Box::new(x), Box::new(y)),
            a,
            env,
        ),
        op == COp::Mul && multiplies_only(x) ==> multiplies_only(chained(x, op, y)),
    decreases y,
{
    match y {
        CTree::Binary(op2, yl, yr) => if op_level(op2) == op_level(op) {
            lemma_chained(x, op, *yl, a, env);
            let whole = chained(x, op, y);
            assert(c_text(whole) =~= c_text(x) + " "@ + op_text(op) + " "@ + c_text(y));
            let l = c_value(x, a, env);
            let p = c_value(*yl, a, env);
            let q = c_value(*yr, a, env);
            let inner = chained(x, op, *yl);
            assert(whole == CTree::Binary(op2, Box::new(inner), yr));
            assert(c_value(inner, a, env) == if op == COp::Add { l + p } else { l * p });
            if op == COp::Mul {
                assert(op2 == COp::Mul);
                assert((l * p) * q == l * (p * q)) by (nonlinear_arith);
                assert(c_value(y, a, env) == p * q);
                assert(c_value(whole, a, env) == (l * p) * q);
            } else {
                assert(c_value(y, a, env) == if op2 == COp::Add { p + q } else { p - q });
                assert(c_value(whole, a, env) == if op2 == COp::Add { l + p + q } else { l + p - q });
            }
            assert(c_value(CTree::Binary(op, Box::new(x), Box::new(y)), a, env)
                == if op == COp::Add { l + c_value(y, a, env) } else { l * c_value(y, a, env) });
        } else {
        },
        _ => {},
    }
}

proof fn lemma_read_call(
    f: Seq<char>,
    v: Seq<IndexModel>,
    parent: int,
    a: Arithmetic,
    env: spec_fn(Seq<char>) -> int,
)
    requires
        f == "min"@ || f == "max"@,
        v.len() != 1,
    ensures
        c_reads(read_call(f, v, parent)),
        tree_level(read_call(f, v, parent)) == 3,
        c_text(read_call(f, v, parent)) == variadic_text(f, v, parent),
        c_value(read_call(f, v, parent), a, env) == if f == "min"@ {
            smallest(v, a, env)
        } else {
            largest(v, a, env)
        },
    decreases v, 0int,
{
    reveal_strlit("0");
    reveal_strlit("min");
    reveal_strlit("max");
    reveal_strlit("floord");
    reveal_strlit("ceild");
    if v.len() == 0 {
        assert(dec_int(0) =~= "0"@);
    } else {
        lemma_read_tree(v.last(), 0, a, env);
        let before = v.drop_last();
        if before.len() == 1 {
            assert(before.drop_last() =~= Seq::empty());
            assert(before.last() == before[0]);
            lemma_read_tree(before[0], 0, a, env);
            assert(read_call(f, before, 0) == read_tree(before[0], 0));
            assert(variadic_text(f, before, 0) == index_text(before[0], 0));
            assert(smallest(before, a, env) == index_value(before[0], a, env));
            assert(largest(before, a, env) == index_value(before[0], a, env));
        } else {
            lemma_read_call(f, before, 0, a, env);
        }
        assert(read_call(f, v, parent) == CTree::Call(
            f,
            Box::new(read_call(f, before, 0)),
            Box::new(read_tree(v.last(), 0)),
        ));
        assert(f.len() == 3);
        assert("floord"@.len() == 6);
        assert("ceild"@.len() == 5);
        assert("min"@[1] == 'i');
        assert("max"@[1] == 'a');
        let x = c_value(read_call(f, before, 0), a, env);
        let y = index_value(v.last(), a, env);
        assert(c_value(read_call(f, v, parent), a, env) == c_call(f, a, x, y));
        assert(smallest(v, a, env) == smaller(smallest(before, a, env), y));
        assert(largest(v, a, env) == larger(largest(before, a, env), y));
    }
}

proof fn lemma_read_tree(
    m: IndexModel,
    parent: int,
    a: Arithmetic,
    env: spec_fn(Seq<char>) -> int,
)
    requires
        0 <= parent <= 3,
    ensures
        c_reads(read_tree(m, parent)),
        tree_level(read_tree(m, parent)) == text_level(m, parent),
        c_text(read_tree(m, parent)) == index_text(m, parent),
        c_value(read_tree(m, parent), a, env) == index_value(m, a, env),
        plain_factor(m) && parent <= 2 ==> multiplies_only(read_tree(m, parent)),
    decreases m, 1int,
{
    match m {
        IndexModel::Constant(n) => {
            assert(read_tree(m, parent) == CTree::Number(n));
        },
        IndexModel::Variable(s) => {
            assert(read_tree(m, parent) == CTree::Name(s));
        },
        IndexModel::Add(l, r) => {
            lemma_read_tree(*l, 1, a, env);
            lemma_read_tree(*r, 1, a, env);
            lemma_text_level(*l, 1);
            lemma_text_level(*r, 1);
            lemma_chained(read_tree(*l, 1), COp::Add, read_tree(*r, 1), a, env);
        },
        IndexModel::Sub(l, r) => {
            lemma_read_tree(*l, 1, a, env);
            lemma_read_tree(*r, 2, a, env);
            lemma_text_level(*l, 1);
            lemma_text_level(*r, 2);
            lemma_chained(read_tree(*l, 1), COp::Sub, read_tree(*r, 2), a, env);
        },
        IndexModel::Mul(l, r) => {
            lemma_read_tree(*l, 2, a, env);
            let level = factor_level(*r);
            lemma_read_tree(*r, level, a, env);
            lemma_text_level(*l, 2);
            lemma_text_level(*r, level);
            lemma_chained(read_tree(*l, 2), COp::Mul, read_tree(*r, level), a, env);
        },
        IndexModel::Div(l, r) => {
            lemma_read_tree(*l, 2, a, env);
            lemma_read_tree(*r, 3, a, env);
            lemma_text_level(*l, 2);
            lemma_text_level(*r, 3);
            lemma_chained(read_tree(*l, 2), COp::Div, read_tree(*r, 3), a, env);
        },
        IndexModel::FloorDiv(l, r) => {
            lemma_read_tree(*l, 0, a, env);
            lemma_read_tree(*r, 0, a, env);
            reveal_strlit("floord(");
            reveal_strlit("floord");
            reveal_strlit("(");
            assert("floord("@ =~= "floord"@ + "("@);
        },
        IndexModel::CeilDiv(l, r) => {
            lemma_read_tree(*l, 0, a, env);
            lemma_read_tree(*r, 0, a, env);
            reveal_strlit("ceild(");
            reveal_strlit("ceild");
            reveal_strlit("floord");
            reveal_strlit("(");
            assert("ceild("@ =~= "ceild"@ + "("@);
            assert("ceild"@.len() == 5 && "floord"@.len() == 6);
        },
        IndexModel::Mod(l, r) => {
            lemma_read_tree(*l, 2, a, env);
            lemma_read_tree(*r, 3, a, env);
            lemma_text_level(*l, 2);
            lemma_text_level(*r, 3);
            lemma_chained(read_tree(*l, 2), COp::Mod, read_tree(*r, 3), a, env);
        },
        IndexModel::Min(v) => {
            if v.len() == 1 {
                assert(v.last() == v[0]);
                lemma_read_tree(v[0], parent, a, env);
                assert(read_tree(m, parent) == read_call("min"@, v, parent));
                assert(read_call("min"@, v, parent) == read_tree(v[0], parent));
                assert(variadic_text("min"@, v, parent) == index_text(v[0], parent));
                assert(smallest(v, a, env) == index_value(v[0], a, env));
            } else {
                lemma_read_call("min"@, v, parent, a, env);
                lemma_call_is_plain("min"@, v, parent);
            }
        },
        IndexModel::Max(v) => {
            if v.len() == 1 {
                assert(v.last() == v[0]);
                lemma_read_tree(v[0], parent, a, env);
                assert(read_tree(m, parent) == read_call("max"@, v, parent));
                assert(read_call("max"@, v, parent) == read_tree(v[0], parent));
                assert(variadic_text("max"@, v, parent) == index_text(v[0], parent));
                assert(largest(v, a, env) == index_value(v[0], a, env));
            } else {
                lemma_read_call("max"@, v, parent, a, env);
                lemma_call_is_plain("max"@, v, parent);
                reveal_strlit("min");
                reveal_strlit("max");
                assert("min"@[1] != "max"@[1]);
            }
        },
    }
}

proof fn lemma_call_is_plain(f: Seq<char>, v: Seq<IndexModel>, parent: int)
    requires
        v.len() != 1,
    ensures
        multiplies_only(read_call(f, v, parent)),
{
}

proof fn lemma_text_level(m: IndexModel, parent: int)
    requires
        parent <= 3,
    ensures
        1 <= text_level(m, parent) <= 3,
        parent <= text_level(m, parent),
    decreases m,
{
    match m {
        IndexModel::Min(v) => {
            if v.len() == 1 {
                lemma_text_level(v[0], parent);
            }
        },
        IndexModel::Max(v) => {
            if v.len() == 1 {
                lemma_text_level(v[0], parent);
            }
        },
        _ => {},
    }
}

/// The C text of an index expression, read by the grammar of C, has the expression's value whatever
/// its variables hold and however C divides: the grouping of the expression is preserved.
pub proof fn rendering_keeps_the_value(m: IndexModel)
    ensures
        exists|t: CTree|
            c_reads(t) && #[trigger] c_text(t) == index_text(m, 0) && forall|
                a: Arithmetic,
                env: spec_fn(Seq<char>) -> int,
            | #[trigger]
                c_value(t, a, env) == index_value(m, a, env),
{
    let t = read_tree(m, 0);
    assert forall|a: Arithmetic, env: spec_fn(Seq<char>) -> int| #[trigger]
        c_value(t, a, env) == index_value(m, a, env) by {
        lemma_read_tree(m, 0, a, env);
    }
    lemma_read_tree(m, 0, arbitrary(), arbitrary());
    assert(c_reads(t) && c_text(t) == index_text(m, 0));
}

} // verus!
