//! The functions that generating an expression emits: they are numbered, and stay as they were.
use crate::expr::{case_value, value, values, Emitted, Env};
use crate::ir::{Expr, ExprKind, Operator, ReduceDomain};
use crate::simplec::{CType, FunctionModel};
use crate::text::{dec, joined};
use crate::writec::{combined, neutral, primed_names, reduce_value};
use vstd::prelude::*;

verus! {

/// The functions are called `reduce0`, `reduce1`, and so on.
pub open spec fn numbered(fns: Seq<FunctionModel>) -> bool {
    forall|k: int| 0 <= k < fns.len() ==> (#[trigger] fns[k]).name == "reduce"@ + dec(k as nat)
}

/// `after` holds the functions of `before` first, as they were.
pub open spec fn extends(before: Seq<FunctionModel>, after: Seq<FunctionModel>) -> bool {
    before.len() <= after.len() && after.take(before.len() as int) == before
}

/// The functions are still numbered, and the earlier ones are the first of them.
pub open spec fn stays_numbered(before: Emitted, after: Emitted) -> bool {
    &&& extends(before.reduce_fns, after.reduce_fns)
    &&& numbered(before.reduce_fns) ==> numbered(after.reduce_fns)
}

proof fn lemma_same(st: Emitted)
    ensures
        stays_numbered(st, st),
{
    assert(st.reduce_fns.take(st.reduce_fns.len() as int) =~= st.reduce_fns);
}

proof fn lemma_then(a: Emitted, b: Emitted, c: Emitted)
    requires
        stays_numbered(a, b),
        stays_numbered(b, c),
    ensures
        stays_numbered(a, c),
{
    let n = a.reduce_fns.len() as int;
    assert(c.reduce_fns.take(n) =~= c.reduce_fns.take(b.reduce_fns.len() as int).take(n));
}

proof fn lemma_one_more(before: Emitted, after: Emitted, f: FunctionModel)
    requires
        after.reduce_fns == before.reduce_fns.push(f),
        f.name == "reduce"@ + dec(before.reduce_fns.len()),
    ensures
        stays_numbered(before, after),
{
    assert(after.reduce_fns.take(before.reduce_fns.len() as int) =~= before.reduce_fns);
    if numbered(before.reduce_fns) {
        assert forall|k: int| 0 <= k < after.reduce_fns.len() implies (
        #[trigger] after.reduce_fns[k]).name == "reduce"@ + dec(k as nat) by {
            if k < before.reduce_fns.len() {
                assert(after.reduce_fns[k] == before.reduce_fns[k]);
            }
        }
    }
}

proof fn lemma_values(env: Env, st: Emitted, names: Seq<Seq<char>>, es: Seq<Expr>)
    ensures
        stays_numbered(st, values(env, st, names, es).1),
    decreases es, 0int,
{
    lemma_same(st);
    if es.len() > 0 {
        lemma_values(env, st, names, es.drop_last());
        let (first, s1) = values(env, st, names, es.drop_last());
        if first is Ok {
            emitted_functions_stay_numbered(env, s1, names, es.last());
            lemma_then(st, s1, value(env, s1, names, es.last()).1);
        }
    }
}

proof fn lemma_case(env: Env, st: Emitted, names: Seq<Seq<char>>, branches: Seq<Expr>)
    ensures
        stays_numbered(st, case_value(env, st, names, branches).1),
    decreases branches, 0int,
{
    lemma_same(st);
    if branches.len() == 1 {
        emitted_functions_stay_numbered(env, st, names, branches[0]);
    } else if branches.len() > 1 {
        let rest = branches.subrange(1, branches.len() as int);
        lemma_case(env, st, names, rest);
        let (out, s1) = case_value(env, st, names, rest);
        if out is Ok && branches[0].context is Some {
            emitted_functions_stay_numbered(env, s1, names, branches[0]);
            lemma_then(st, s1, value(env, s1, names, branches[0]).1);
        }
    }
}

/// Whatever comes of a reduction, the functions emitted for reductions stay numbered `reduce0`,
/// `reduce1`, and so on, and the earlier ones stay as they were.
pub proof fn a_reduction_adds_to_the_numbered_functions(
    env: Env,
    st: Emitted,
    names: Seq<Seq<char>>,
    operator: Operator,
    hint: Seq<Seq<char>>,
    body: Expr,
    domain: Option<ReduceDomain>,
)
    ensures
        stays_numbered(st, reduce_value(env, st, names, operator, hint, body, domain).1),
    decreases body, 1int,
{
    lemma_same(st);
    if let Some(d) = domain {
        if d.total > names.len() {
            if let Ok(nest) = d.nest {
                let primed = primed_names(names);
                let new_names = crate::writec::new_index_names(names.len(), hint, d);
                let all = primed + new_names;
                emitted_functions_stay_numbered(env, st, all, body);
                let (v, s1) = value(env, st, all, body);
                let (out, s2) = reduce_value(env, st, names, operator, hint, body, domain);
                if s2 == st || s2 == s1 {
                } else {
                    let f = s2.reduce_fns.last();
                    assert(s2.reduce_fns == s1.reduce_fns.push(f));
                    assert(f.name == "reduce"@ + dec(s1.reduce_fns.len()));
                    lemma_one_more(s1, s2, f);
                    lemma_then(st, s1, s2);
                }
            }
        }
    }
}

/// A reduction that is generated is a call of the function that it adds last: a static function of
/// the parameters and the ambient indices, each of the latter primed, called with them all.
pub proof fn a_reduction_calls_the_function_it_adds(
    env: Env,
    st: Emitted,
    names: Seq<Seq<char>>,
    operator: Operator,
    hint: Seq<Seq<char>>,
    body: Expr,
    domain: Option<ReduceDomain>,
)
    ensures
        ({
            let (out, after) = reduce_value(env, st, names, operator, hint, body, domain);
            out matches Ok(text) ==> after.reduce_fns.len() > 0 && {
                let f = after.reduce_fns.last();
                let indices = env.params + primed_names(names);
                &&& text == f.name + "("@ + joined(env.params + names, ", "@) + ")"@
                &&& f.is_static
                &&& f.return_type == CType::Float
                &&& f.params == Seq::new(indices.len(), |i: int| (CType::Long, indices[i]))
                &&& f.params.len() == (env.params + names).len()
            }
        }),
{
    let (out, after) = reduce_value(env, st, names, operator, hint, body, domain);
    if out is Ok {
        let f = after.reduce_fns.last();
        let indices = env.params + primed_names(names);
        assert(f.params =~= Seq::new(indices.len(), |i: int| (CType::Long, indices[i])));
    }
}

/// Generating an expression keeps the functions emitted for reductions numbered `reduce0`,
/// `reduce1`, and so on, and the earlier ones as they were, whether it succeeds or not.
pub proof fn emitted_functions_stay_numbered(
    env: Env,
    st: Emitted,
    names: Seq<Seq<char>>,
    e: Expr,
)
    ensures
        stays_numbered(st, value(env, st, names, e).1),
    decreases e, 0int,
{
    lemma_same(st);
    match *e.kind {
        ExprKind::If { cond, then_branch, else_branch } => {
            emitted_functions_stay_numbered(env, st, names, cond);
            let (c, s1) = value(env, st, names, cond);
            if c is Ok {
                emitted_functions_stay_numbered(env, s1, names, then_branch);
                let (t, s2) = value(env, s1, names, then_branch);
                lemma_then(st, s1, s2);
                if t is Ok {
                    emitted_functions_stay_numbered(env, s2, names, else_branch);
                    lemma_then(st, s2, value(env, s2, names, else_branch).1);
                }
            }
        },
        ExprKind::Restrict { operand } => {
            emitted_functions_stay_numbered(env, st, names, operand);
        },
        ExprKind::AutoRestrict { operand } => {
            emitted_functions_stay_numbered(env, st, names, operand);
        },
        ExprKind::Case { branches } => {
            lemma_case(env, st, names, branches@);
        },
        ExprKind::Reduce { is_arg_reduce, operator, body_context, body, projection, domain } => {
            a_reduction_adds_to_the_numbered_functions(
                env,
                st,
                names,
                operator,
                crate::text::views(body_context@),
                body,
                domain,
            );
        },
        ExprKind::MultiArg { operator, args } => {
            lemma_values(env, st, names, args@);
            let (out, s1) = values(env, st, names, args@);
            let after = value(env, st, names, e).1;
            assert(after.reduce_fns == s1.reduce_fns);
        },
        ExprKind::Binary { operator, lhs, rhs } => {
            emitted_functions_stay_numbered(env, st, names, lhs);
            let (l, s1) = value(env, st, names, lhs);
            if l is Ok {
                emitted_functions_stay_numbered(env, s1, names, rhs);
                lemma_then(st, s1, value(env, s1, names, rhs).1);
            }
        },
        ExprKind::Unary { operator, operand } => {
            emitted_functions_stay_numbered(env, st, names, operand);
        },
        _ => {},
    }
}

/// A value of the generated code: a fraction, which every finite floating-point number is, or one of
/// the two infinities.
pub enum Number {
    Finite(int, int),
    Infinite,
    MinusInfinite,
}

/// The number that a text for a neutral element stands for.
pub open spec fn literal_value(text: Seq<char>) -> Option<Number> {
    if text == "0.0f"@ {
        Some(Number::Finite(0, 1))
    } else if text == "1.0f"@ {
        Some(Number::Finite(1, 1))
    } else if text == "INFINITY"@ {
        Some(Number::Infinite)
    } else if text == "-INFINITY"@ {
        Some(Number::MinusInfinite)
    } else {
        None
    }
}

/// A C expression over an accumulator and a value.
pub enum Step {
    Sum,
    Product,
    Least,
    Greatest,
    BothTrue,
    EitherTrue,
}

/// How the expression is written.
pub open spec fn step_text(step: Step, cell: Seq<char>, value: Seq<char>) -> Seq<char> {
    match step {
        Step::Sum => "("@ + cell + ") + ("@ + value + ")"@,
        Step::Product => "("@ + cell + ") * ("@ + value + ")"@,
        Step::Least => "min"@ + "("@ + cell + ", "@ + value + ")"@,
        Step::Greatest => "max"@ + "("@ + cell + ", "@ + value + ")"@,
        Step::BothTrue => "(("@ + cell + ") != 0) && (("@ + value + ") != 0)"@,
        Step::EitherTrue => "(("@ + cell + ") != 0) || (("@ + value + ") != 0)"@,
    }
}

pub open spec fn is_true(n: Number) -> bool {
    match n {
        Number::Finite(p, _) => p != 0,
        _ => true,
    }
}

/// A truth value, as C gives it.
pub open spec fn truth(b: bool) -> Number {
    if b {
        Number::Finite(1, 1)
    } else {
        Number::Finite(0, 1)
    }
}

pub open spec fn less(a: Number, b: Number) -> bool {
    match (a, b) {
        (Number::Finite(p, q), Number::Finite(u, v)) => p * v < u * q,
        (Number::MinusInfinite, Number::MinusInfinite) => false,
        (Number::MinusInfinite, _) => true,
        (_, Number::Infinite) => !(a is Infinite),
        _ => false,
    }
}

/// What the expression gives for a finite value. Sums and products with an infinite accumulator,
/// which no reduction has, are left out.
pub open spec fn step_value(step: Step, cell: Number, x: (int, int)) -> Option<Number> {
    let value = Number::Finite(x.0, x.1);
    match step {
        Step::Sum => match cell {
            Number::Finite(p, q) => Some(Number::Finite(p * x.1 + x.0 * q, q * x.1)),
            _ => None,
        },
        Step::Product => match cell {
            Number::Finite(p, q) => Some(Number::Finite(p * x.0, q * x.1)),
            _ => None,
        },
        Step::Least => Some(
            if less(cell, value) {
                cell
            } else {
                value
            },
        ),
        Step::Greatest => Some(
            if less(value, cell) {
                cell
            } else {
                value
            },
        ),
        Step::BothTrue => Some(truth(is_true(cell) && is_true(value))),
        Step::EitherTrue => Some(truth(is_true(cell) || is_true(value))),
    }
}

/// How an operator that is known by name is written.
pub open spec fn step_of(op: Seq<char>) -> Option<Step> {
    if op == "+"@ || op == "sum"@ {
        Some(Step::Sum)
    } else if op == "*"@ || op == "prod"@ {
        Some(Step::Product)
    } else if op == "min"@ {
        Some(Step::Least)
    } else if op == "max"@ {
        Some(Step::Greatest)
    } else if op == "and"@ {
        Some(Step::BothTrue)
    } else if op == "or"@ {
        Some(Step::EitherTrue)
    } else {
        None
    }
}

/// A reduction starts from the identity of its operator: the text that combines the accumulator with
/// a value, where the accumulator holds the neutral element, gives the value; for `and` and `or`, it
/// gives whether the value is not 0.
pub proof fn a_reduction_starts_from_the_identity(
    operator: Operator,
    cell: Seq<char>,
    value: Seq<char>,
    x: (int, int),
)
    requires
        operator is Named,
        x.1 > 0,
    ensures
        match step_of(operator->Named_0@) {
            None => neutral(operator) is None && combined(operator, cell, value) is None,
            Some(step) => {
                &&& combined(operator, cell, value) == Some(step_text(step, cell, value))
                &&& neutral(operator) matches Some(t) && literal_value(t) matches Some(start)
                    && step_value(step, start, x) == Some(
                    match step {
                        Step::BothTrue | Step::EitherTrue => truth(x.0 != 0),
                        _ => Number::Finite(x.0, x.1),
                    },
                )
            },
        },
{
    reveal_strlit("+");
    reveal_strlit("sum");
    reveal_strlit("or");
    reveal_strlit("*");
    reveal_strlit("prod");
    reveal_strlit("and");
    reveal_strlit("min");
    reveal_strlit("max");
    reveal_strlit("0.0f");
    reveal_strlit("1.0f");
    reveal_strlit("INFINITY");
    reveal_strlit("-INFINITY");
    assert("+"@.len() == 1 && "*"@.len() == 1 && "+"@[0] != "*"@[0]);
    assert("sum"@.len() == 3 && "min"@.len() == 3 && "max"@.len() == 3 && "and"@.len() == 3);
    assert("sum"@[0] == 's' && "min"@[0] == 'm' && "max"@[0] == 'm' && "and"@[0] == 'a');
    assert("min"@[1] == 'i' && "max"@[1] == 'a');
    assert("or"@.len() == 2 && "prod"@.len() == 4);
    assert("0.0f"@[0] == '0' && "1.0f"@[0] == '1');
    assert("INFINITY"@.len() == 8 && "-INFINITY"@.len() == 9 && "0.0f"@.len() == 4);
    assert("1.0f"@.len() == 4);
}

} // verus!
