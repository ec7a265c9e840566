//! The C text of an expression, read as C reads it, has the value of the expression.
use crate::denotation::{
    constant_of, denoted, denoted_all, denoted_case, fold_operation, folded_values, operation_of,
    Operation, Sense,
};
use crate::emission::{is_true, Number};
use crate::execution::Texts;
use crate::expr::{
    binary_text, case_value, folded, folding_op, found, is_binary_op, piecewise_value, value,
    values, Backend, Emitted, Env, Role,
};
use crate::ir::{filled_all, AffineFunction, Expr, ExprKind, Operator, StandardEquation};
use crate::text::joined;
use vstd::prelude::*;

verus! {

/// How C writes an operation.
pub open spec fn sign(o: Operation) -> Seq<char> {
    match o {
        Operation::Add => "+"@,
        Operation::Subtract => "-"@,
        Operation::Multiply => "*"@,
        Operation::Divide => "/"@,
        Operation::Equal => "=="@,
        Operation::Unequal => "!="@,
        Operation::AtLeast => ">="@,
        Operation::Greater => ">"@,
        Operation::Less => "<"@,
        Operation::AtMost => "<="@,
        Operation::And => "&&"@,
        Operation::Or => "||"@,
        Operation::Least => "min"@,
        Operation::Greatest => "max"@,
        Operation::Exclusive => "!="@,
    }
}

/// An operation on two texts, as C writes it.
pub open spec fn operation_text(o: Operation, l: Seq<char>, r: Seq<char>) -> Seq<char> {
    match o {
        Operation::Least | Operation::Greatest => sign(o) + "("@ + (l + ", "@ + r) + ")"@,
        Operation::Exclusive => "((("@ + l + ") != 0) != (("@ + r + ") != 0))"@,
        _ => "(("@ + l + ") "@ + sign(o) + " ("@ + r + "))"@,
    }
}

/// What a C text comes to, given the values of the integer variables.
pub struct CValues {
    pub read: spec_fn(Seq<char>, Map<Seq<char>, int>) -> Number,
}

/// The point at which the indices are.
pub open spec fn point_of(names: Seq<Seq<char>>, vars: Map<Seq<char>, int>) -> Seq<int> {
    names.map_values(|n: Seq<char>| vars[n])
}

/// What several texts for integers come to.
pub open spec fn numbers(texts: Seq<Seq<char>>, t: Texts, vars: Map<Seq<char>, int>) -> Seq<int> {
    texts.map_values(|text: Seq<char>| (t.number)(text, vars))
}

/// C reads an operation on two texts as the operation on what they come to.
pub open spec fn operation_read(
    o: Operation,
    l: Seq<char>,
    r: Seq<char>,
    c: CValues,
    m: Sense,
) -> bool {
    forall|vars: Map<Seq<char>, int>| #[trigger]
        (c.read)(operation_text(o, l, r), vars) == (m.apply)(
            o,
            (c.read)(l, vars),
            (c.read)(r, vars),
        )
}

/// Texts folded from the left.
pub open spec fn fold_text(o: Operation, texts: Seq<Seq<char>>) -> Seq<char>
    decreases texts.len(),
{
    if texts.len() <= 1 {
        texts[0]
    } else {
        operation_text(o, fold_text(o, texts.drop_last()), texts.last())
    }
}

pub open spec fn fold_read(o: Operation, texts: Seq<Seq<char>>, c: CValues, m: Sense) -> bool
    decreases texts.len(),
{
    texts.len() <= 1 || (fold_read(o, texts.drop_last(), c, m) && operation_read(
        o,
        fold_text(o, texts.drop_last()),
        texts.last(),
        c,
        m,
    ))
}

/// C reads the outputs of a function as its image of the point.
pub open spec fn function_read(
    f: AffineFunction,
    names: Seq<Seq<char>>,
    t: Texts,
    m: Sense,
) -> bool {
    forall|vars: Map<Seq<char>, int>| #[trigger]
        (m.image)(f, point_of(names, vars)) == numbers(filled_all(f.outputs@, names), t, vars)
}

/// C reads the text of a choice by its condition, which is true as `holds` says.
pub open spec fn choice_read(
    condition: Seq<char>,
    l: Seq<char>,
    r: Seq<char>,
    c: CValues,
    holds: spec_fn(Map<Seq<char>, int>) -> bool,
) -> bool {
    forall|vars: Map<Seq<char>, int>| #[trigger]
        (c.read)("("@ + condition + ") ? ("@ + l + ") : ("@ + r + ")"@, vars) == if holds(vars) {
            (c.read)(l, vars)
        } else {
            (c.read)(r, vars)
        }
}

/// Whether the value of a variable is computed when it is asked for.
pub open spec fn computed_on_demand(env: Env, name: Seq<char>) -> bool {
    env.backend == Backend::WriteC && (found(env.variables, name) matches Some(info) && info.role
        != Role::Input)
}

/// How a variable is read at a point that texts give: in place, or, if it is computed on demand, by
/// calling the function that evaluates it.
pub open spec fn access_text(on_demand: bool, name: Seq<char>, indices: Seq<Seq<char>>) -> Seq<char> {
    if on_demand {
        "eval_"@ + name + "("@ + joined(indices, ","@) + ")"@
    } else {
        name + "("@ + joined(indices, ","@) + ")"@
    }
}

/// C reads every text that is generated for an expression as what it is written for: an access as
/// the value of the variable, a constant as its value, an operation as the operation on the values
/// of its operands, a choice as the value that its condition picks, and a call as the value that the
/// function gives.
pub open spec fn expression_read(
    env: Env,
    st: Emitted,
    names: Seq<Seq<char>>,
    e: Expr,
    t: Texts,
    c: CValues,
    m: Sense,
) -> bool
    decreases e, 0nat,
{
    match *e.kind {
        ExprKind::Bool(_) | ExprKind::Int(_) | ExprKind::Real(_) => constant_read(*e.kind, c, m),
        ExprKind::Dependence { function, operand } => match *operand.kind {
            ExprKind::Variable(name) => {
                let indices = filled_all(function.outputs@, names);
                let on_demand = computed_on_demand(env, name@);
                &&& function_read(function, names, t, m)
                &&& forall|vars: Map<Seq<char>, int>| #[trigger]
                    (c.read)(access_text(on_demand, name@, indices), vars) == (m.cell)(
                        name@,
                        numbers(indices, t, vars),
                    )
            },
            _ => constant_read(*operand.kind, c, m),
        },
        ExprKind::IndexFunction { function } => {
            let text = function.outputs@[0].filled(names);
            &&& function_read(function, names, t, m)
            &&& forall|vars: Map<Seq<char>, int>| #[trigger]
                (c.read)("((float)("@ + text + "))"@, vars) == (m.index)((t.number)(text, vars))
        },
        ExprKind::If { cond, then_branch, else_branch } => {
            let s1 = value(env, st, names, cond).1;
            let s2 = value(env, s1, names, then_branch).1;
            let test = value(env, st, names, cond).0->Ok_0;
            &&& expression_read(env, st, names, cond, t, c, m)
            &&& expression_read(env, s1, names, then_branch, t, c, m)
            &&& expression_read(env, s2, names, else_branch, t, c, m)
            &&& choice_read(
                test,
                value(env, s1, names, then_branch).0->Ok_0,
                value(env, s2, names, else_branch).0->Ok_0,
                c,
                |vars: Map<Seq<char>, int>| is_true((c.read)(test, vars)),
            )
        },
        ExprKind::Restrict { operand } => expression_read(env, st, names, operand, t, c, m),
        ExprKind::AutoRestrict { operand } => expression_read(env, st, names, operand, t, c, m),
        ExprKind::Case { branches } => case_read(env, st, names, branches@, t, c, m),
        ExprKind::MultiArg { operator, args } => {
            let texts = values(env, st, names, args@).0->Ok_0;
            &&& all_read(env, st, names, args@, t, c, m)
            &&& match operator {
                Operator::External(name) => forall|vars: Map<Seq<char>, int>| #[trigger]
                    (c.read)(name@ + "("@ + joined(texts, ", "@) + ")"@, vars) == (m.call)(
                        name@,
                        texts.map_values(|text: Seq<char>| (c.read)(text, vars)),
                    ),
                Operator::Named(op) => fold_operation(op@) matches Some(o) ==> fold_read(
                    o,
                    texts,
                    c,
                    m,
                ),
            }
        },
        ExprKind::Binary { operator, lhs, rhs } => {
            let s1 = value(env, st, names, lhs).1;
            &&& expression_read(env, st, names, lhs, t, c, m)
            &&& expression_read(env, s1, names, rhs, t, c, m)
            &&& operation_of(operator@) matches Some(o) ==> operation_read(
                o,
                value(env, st, names, lhs).0->Ok_0,
                value(env, s1, names, rhs).0->Ok_0,
                c,
                m,
            )
        },
        ExprKind::Unary { operator, operand } => {
            let text = value(env, st, names, operand).0->Ok_0;
            &&& expression_read(env, st, names, operand, t, c, m)
            &&& operator@ == "-"@ ==> forall|vars: Map<Seq<char>, int>| #[trigger]
                (c.read)("(-("@ + text + "))"@, vars) == (m.negated)((c.read)(text, vars))
            &&& operator@ == "not"@ ==> forall|vars: Map<Seq<char>, int>| #[trigger]
                (c.read)("(!("@ + text + "))"@, vars) == (m.inverted)((c.read)(text, vars))
        },
        _ => forall|vars: Map<Seq<char>, int>| #[trigger]
            (c.read)(value(env, st, names, e).0->Ok_0, vars) == (m.other)(
                e,
                point_of(names, vars),
            ),
    }
}

/// C reads the text of a constant as its value.
pub open spec fn constant_read(k: ExprKind, c: CValues, m: Sense) -> bool {
    match k {
        ExprKind::Bool(_) => {
            &&& forall|vars: Map<Seq<char>, int>| #[trigger]
                (c.read)("1.0f"@, vars) == Number::Finite(1, 1)
            &&& forall|vars: Map<Seq<char>, int>| #[trigger]
                (c.read)("0.0f"@, vars) == Number::Finite(0, 1)
        },
        ExprKind::Int(s) => forall|vars: Map<Seq<char>, int>| #[trigger]
            (c.read)("((float)("@ + s@ + "))"@, vars) == (m.literal)(s@),
        ExprKind::Real(s) => forall|vars: Map<Seq<char>, int>| #[trigger]
            (c.read)("((float)("@ + s@ + "))"@, vars) == (m.literal)(s@),
        _ => true,
    }
}

pub open spec fn case_read(
    env: Env,
    st: Emitted,
    names: Seq<Seq<char>>,
    branches: Seq<Expr>,
    t: Texts,
    c: CValues,
    m: Sense,
) -> bool
    decreases branches, 0nat,
{
    if branches.len() == 0 {
        true
    } else if branches.len() == 1 {
        expression_read(env, st, names, branches[0], t, c, m)
    } else {
        let rest = branches.subrange(1, branches.len() as int);
        let s1 = case_value(env, st, names, rest).1;
        &&& case_read(env, st, names, rest, t, c, m)
        &&& expression_read(env, s1, names, branches[0], t, c, m)
        &&& branches[0].context matches Some(guard) ==> choice_read(
            guard.filled(names),
            value(env, s1, names, branches[0]).0->Ok_0,
            case_value(env, st, names, rest).0->Ok_0,
            c,
            |vars: Map<Seq<char>, int>| (m.inside)(guard, point_of(names, vars)),
        )
    }
}

pub open spec fn all_read(
    env: Env,
    st: Emitted,
    names: Seq<Seq<char>>,
    v: Seq<Expr>,
    t: Texts,
    c: CValues,
    m: Sense,
) -> bool
    decreases v, 0nat,
{
    if v.len() == 0 {
        true
    } else {
        let s1 = values(env, st, names, v.drop_last()).1;
        &&& all_read(env, st, names, v.drop_last(), t, c, m)
        &&& expression_read(env, s1, names, v.last(), t, c, m)
    }
}

proof fn lemma_joined_two(l: Seq<char>, r: Seq<char>)
    ensures
        joined(seq![l, r], ", "@) == l + ", "@ + r,
{
    let two = seq![l, r];
    assert(two.drop_last() =~= seq![l]);
    assert(two.drop_last().drop_last() =~= Seq::<Seq<char>>::empty());
    assert(joined(seq![l], ", "@) == l);
    assert(joined(two, ", "@) =~= l + ", "@ + r);
}

proof fn lemma_sign(op: Seq<char>, l: Seq<char>, r: Seq<char>)
    ensures
        binary_text(op, l, r) is Some <==> operation_of(op) is Some,
        operation_of(op) is Some ==> binary_text(op, l, r) == Some(
            operation_text(operation_of(op)->Some_0, l, r),
        ),
        is_binary_op(op) <==> operation_of(op) is Some,
{
    reveal_strlit("+");
    reveal_strlit("-");
    reveal_strlit("*");
    reveal_strlit("/");
    reveal_strlit("=");
    reveal_strlit("!=");
    reveal_strlit(">=");
    reveal_strlit(">");
    reveal_strlit("<");
    reveal_strlit("<=");
    reveal_strlit("and");
    reveal_strlit("or");
    reveal_strlit("min");
    reveal_strlit("max");
    reveal_strlit("xor");
    assert("+"@.len() == 1 && "-"@.len() == 1 && "*"@.len() == 1 && "/"@.len() == 1);
    assert("="@.len() == 1 && ">"@.len() == 1 && "<"@.len() == 1);
    assert("!="@.len() == 2 && ">="@.len() == 2 && "<="@.len() == 2 && "or"@.len() == 2);
    assert("and"@.len() == 3 && "min"@.len() == 3 && "max"@.len() == 3 && "xor"@.len() == 3);
    assert("+"@[0] == '+' && "-"@[0] == '-' && "*"@[0] == '*' && "/"@[0] == '/');
    assert("="@[0] == '=' && ">"@[0] == '>' && "<"@[0] == '<');
    assert("!="@[0] == '!' && ">="@[0] == '>' && "<="@[0] == '<' && "or"@[0] == 'o');
    assert("and"@[0] == 'a' && "min"@[0] == 'm' && "max"@[0] == 'm' && "xor"@[0] == 'x');
    assert("min"@[1] == 'i' && "max"@[1] == 'a');
    lemma_joined_two(l, r);
}

proof fn lemma_folded(
    op: Seq<char>,
    o: Operation,
    texts: Seq<Seq<char>>,
    c: CValues,
    m: Sense,
    vars: Map<Seq<char>, int>,
)
    requires
        texts.len() > 0,
        operation_of(op) == Some(o),
        fold_read(o, texts, c, m),
    ensures
        folded(op, texts) == fold_text(o, texts),
        (c.read)(fold_text(o, texts), vars) == folded_values(
            Some(o),
            texts.map_values(|text: Seq<char>| (c.read)(text, vars)),
            m,
        ),
    decreases texts.len(),
{
    let all = texts.map_values(|text: Seq<char>| (c.read)(text, vars));
    if texts.len() > 1 {
        lemma_folded(op, o, texts.drop_last(), c, m, vars);
        lemma_sign(op, folded(op, texts.drop_last()), texts.last());
        assert(all.drop_last() =~= texts.drop_last().map_values(
            |text: Seq<char>| (c.read)(text, vars),
        ));
        assert(binary_text(op, folded(op, texts.drop_last()), texts.last()) == Some(
            operation_text(o, folded(op, texts.drop_last()), texts.last()),
        ));
    }
}

proof fn lemma_values(
    env: Env,
    st: Emitted,
    names: Seq<Seq<char>>,
    v: Seq<Expr>,
    t: Texts,
    c: CValues,
    m: Sense,
    vars: Map<Seq<char>, int>,
)
    requires
        values(env, st, names, v).0 is Ok,
        all_read(env, st, names, v, t, c, m),
    ensures
        values(env, st, names, v).0->Ok_0.len() == v.len(),
        values(env, st, names, v).0->Ok_0.map_values(|text: Seq<char>| (c.read)(text, vars))
            == denoted_all(v, point_of(names, vars), m),
    decreases v, 0nat,
{
    let texts = values(env, st, names, v).0->Ok_0;
    if v.len() > 0 {
        lemma_values(env, st, names, v.drop_last(), t, c, m, vars);
        let before = values(env, st, names, v.drop_last()).0->Ok_0;
        let s1 = values(env, st, names, v.drop_last()).1;
        a_text_has_the_value_of_its_expression(env, s1, names, v.last(), t, c, m, vars);
        assert(texts == before.push(value(env, s1, names, v.last()).0->Ok_0));
    }
    assert(texts.map_values(|text: Seq<char>| (c.read)(text, vars)) =~= denoted_all(
        v,
        point_of(names, vars),
        m,
    ));
}

proof fn lemma_case(
    env: Env,
    st: Emitted,
    names: Seq<Seq<char>>,
    branches: Seq<Expr>,
    t: Texts,
    c: CValues,
    m: Sense,
    vars: Map<Seq<char>, int>,
)
    requires
        branches.len() > 0,
        case_value(env, st, names, branches).0 is Ok,
        case_read(env, st, names, branches, t, c, m),
    ensures
        (c.read)(case_value(env, st, names, branches).0->Ok_0, vars) == denoted_case(
            branches,
            point_of(names, vars),
            m,
        ),
    decreases branches, 0nat,
{
    if branches.len() == 1 {
        a_text_has_the_value_of_its_expression(env, st, names, branches[0], t, c, m, vars);
    } else {
        let rest = branches.subrange(1, branches.len() as int);
        lemma_case(env, st, names, rest, t, c, m, vars);
        let s1 = case_value(env, st, names, rest).1;
        a_text_has_the_value_of_its_expression(env, s1, names, branches[0], t, c, m, vars);
        let guard = branches[0].context->Some_0;
        let l = value(env, s1, names, branches[0]).0->Ok_0;
        let r = case_value(env, st, names, rest).0->Ok_0;
        assert(case_value(env, st, names, branches).0->Ok_0 == "("@ + guard.filled(names)
            + ") ? ("@ + l + ") : ("@ + r + ")"@);
    }
}

/// The text that is generated for an expression has its value.
pub open spec fn has_value(
    env: Env,
    st: Emitted,
    names: Seq<Seq<char>>,
    e: Expr,
    c: CValues,
    m: Sense,
    vars: Map<Seq<char>, int>,
) -> bool {
    (c.read)(value(env, st, names, e).0->Ok_0, vars) == denoted(e, point_of(names, vars), m)
}

proof fn lemma_dependence(
    env: Env,
    st: Emitted,
    names: Seq<Seq<char>>,
    e: Expr,
    t: Texts,
    c: CValues,
    m: Sense,
    vars: Map<Seq<char>, int>,
)
    requires
        value(env, st, names, e).0 is Ok,
        expression_read(env, st, names, e, t, c, m),
        (*e.kind) is Dependence,
    ensures
        has_value(env, st, names, e, c, m, vars),
{
    let p = point_of(names, vars);
    let function = (*e.kind)->Dependence_function;
    let operand = (*e.kind)->Dependence_operand;
    let text = value(env, st, names, e).0->Ok_0;
    let q = (m.image)(function, p);
    match *operand.kind {
        ExprKind::Variable(name) => {
            let indices = filled_all(function.outputs@, names);
            assert(denoted(operand, q, m) == (m.cell)(name@, q));
            let info = found(env.variables, name@)->Some_0;
            let on_demand = computed_on_demand(env, name@);
            assert(on_demand == (env.backend == Backend::WriteC && info.role != Role::Input));
            assert(text == access_text(on_demand, name@, indices));
            assert(function_read(function, names, t, m));
            assert(q == numbers(indices, t, vars));
            assert((c.read)(access_text(on_demand, name@, indices), vars) == (m.cell)(
                name@,
                numbers(indices, t, vars),
            ));
            assert(denoted(e, p, m) == denoted(operand, q, m));
        },
        _ => {
            assert(denoted(operand, q, m) == constant_of(*operand.kind, m)->Some_0);
        },
    }
}

proof fn lemma_index_function(
    env: Env,
    st: Emitted,
    names: Seq<Seq<char>>,
    e: Expr,
    t: Texts,
    c: CValues,
    m: Sense,
    vars: Map<Seq<char>, int>,
)
    requires
        value(env, st, names, e).0 is Ok,
        expression_read(env, st, names, e, t, c, m),
        (*e.kind) is IndexFunction,
    ensures
        has_value(env, st, names, e, c, m, vars),
{
    let p = point_of(names, vars);
    let function = (*e.kind)->IndexFunction_function;
    let own = function.outputs@[0].filled(names);
    assert((m.image)(function, p)[0] == (t.number)(own, vars));
}

proof fn lemma_if(
    env: Env,
    st: Emitted,
    names: Seq<Seq<char>>,
    e: Expr,
    t: Texts,
    c: CValues,
    m: Sense,
    vars: Map<Seq<char>, int>,
)
    requires
        value(env, st, names, e).0 is Ok,
        expression_read(env, st, names, e, t, c, m),
        (*e.kind) is If,
        ({
            let (x, y, z) = ((*e.kind)->cond, (*e.kind)->then_branch, (*e.kind)->else_branch);
            let s1 = value(env, st, names, x).1;
            let s2 = value(env, s1, names, y).1;
            &&& has_value(env, st, names, x, c, m, vars)
            &&& has_value(env, s1, names, y, c, m, vars)
            &&& has_value(env, s2, names, z, c, m, vars)
        }),
    ensures
        has_value(env, st, names, e, c, m, vars),
{
    let (x, y, z) = ((*e.kind)->cond, (*e.kind)->then_branch, (*e.kind)->else_branch);
    let s1 = value(env, st, names, x).1;
    let s2 = value(env, s1, names, y).1;
    let a = value(env, st, names, x).0->Ok_0;
    let b = value(env, s1, names, y).0->Ok_0;
    let d = value(env, s2, names, z).0->Ok_0;
    let text = value(env, st, names, e).0->Ok_0;
    assert(text == "("@ + a + ") ? ("@ + b + ") : ("@ + d + ")"@);
    let holds = |vars: Map<Seq<char>, int>| is_true((c.read)(a, vars));
    assert(choice_read(a, b, d, c, holds));
    assert(holds(vars) == is_true((c.read)(a, vars)));
}

proof fn lemma_many(
    env: Env,
    st: Emitted,
    names: Seq<Seq<char>>,
    e: Expr,
    t: Texts,
    c: CValues,
    m: Sense,
    vars: Map<Seq<char>, int>,
)
    requires
        value(env, st, names, e).0 is Ok,
        expression_read(env, st, names, e, t, c, m),
        (*e.kind) is MultiArg,
        values(env, st, names, (*e.kind)->args@).0->Ok_0.len() == (*e.kind)->args@.len(),
        values(env, st, names, (*e.kind)->args@).0->Ok_0.map_values(
            |text: Seq<char>| (c.read)(text, vars),
        ) == denoted_all((*e.kind)->args@, point_of(names, vars), m),
    ensures
        has_value(env, st, names, e, c, m, vars),
{
    let texts = values(env, st, names, (*e.kind)->args@).0->Ok_0;
    let text = value(env, st, names, e).0->Ok_0;
    match (*e.kind)->MultiArg_operator {
        Operator::External(name) => {
            assert(text == name@ + "("@ + joined(texts, ", "@) + ")"@);
        },
        Operator::Named(op) => {
            lemma_fold_names(op@);
            let o = fold_operation(op@)->Some_0;
            lemma_folded(folding_op(op@), o, texts, c, m, vars);
            assert(text == fold_text(o, texts));
        },
    }
}

proof fn lemma_binary(
    env: Env,
    st: Emitted,
    names: Seq<Seq<char>>,
    e: Expr,
    t: Texts,
    c: CValues,
    m: Sense,
    vars: Map<Seq<char>, int>,
)
    requires
        value(env, st, names, e).0 is Ok,
        expression_read(env, st, names, e, t, c, m),
        (*e.kind) is Binary,
        has_value(env, st, names, (*e.kind)->lhs, c, m, vars),
        has_value(
            env,
            value(env, st, names, (*e.kind)->lhs).1,
            names,
            (*e.kind)->rhs,
            c,
            m,
            vars,
        ),
    ensures
        has_value(env, st, names, e, c, m, vars),
{
    let s1 = value(env, st, names, (*e.kind)->lhs).1;
    let l = value(env, st, names, (*e.kind)->lhs).0->Ok_0;
    let r = value(env, s1, names, (*e.kind)->rhs).0->Ok_0;
    let op = (*e.kind)->Binary_operator@;
    lemma_sign(op, l, r);
    assert(binary_text(op, l, r) is Some);
    let o = operation_of(op)->Some_0;
    assert(value(env, st, names, e).0->Ok_0 == operation_text(o, l, r));
    assert(operation_read(o, l, r, c, m));
}

proof fn lemma_unary(
    env: Env,
    st: Emitted,
    names: Seq<Seq<char>>,
    e: Expr,
    t: Texts,
    c: CValues,
    m: Sense,
    vars: Map<Seq<char>, int>,
)
    requires
        value(env, st, names, e).0 is Ok,
        expression_read(env, st, names, e, t, c, m),
        (*e.kind) is Unary,
        has_value(env, st, names, (*e.kind)->Unary_operand, c, m, vars),
    ensures
        has_value(env, st, names, e, c, m, vars),
{
    reveal_strlit("-");
    reveal_strlit("not");
    assert("-"@.len() == 1 && "not"@.len() == 3);
}

/// The text that is generated for an expression, read as C reads it, has the value of the expression
/// at the point at which the indices are.
pub proof fn a_text_has_the_value_of_its_expression(
    env: Env,
    st: Emitted,
    names: Seq<Seq<char>>,
    e: Expr,
    t: Texts,
    c: CValues,
    m: Sense,
    vars: Map<Seq<char>, int>,
)
    requires
        value(env, st, names, e).0 is Ok,
        expression_read(env, st, names, e, t, c, m),
    ensures
        (c.read)(value(env, st, names, e).0->Ok_0, vars) == denoted(e, point_of(names, vars), m),
    decreases e, 0nat,
{
    match *e.kind {
        ExprKind::Dependence { function, operand } => {
            lemma_dependence(env, st, names, e, t, c, m, vars);
        },
        ExprKind::IndexFunction { function } => {
            lemma_index_function(env, st, names, e, t, c, m, vars);
        },
        ExprKind::If { cond, then_branch, else_branch } => {
            let s1 = value(env, st, names, cond).1;
            let s2 = value(env, s1, names, then_branch).1;
            a_text_has_the_value_of_its_expression(env, st, names, cond, t, c, m, vars);
            a_text_has_the_value_of_its_expression(env, s1, names, then_branch, t, c, m, vars);
            a_text_has_the_value_of_its_expression(env, s2, names, else_branch, t, c, m, vars);
            lemma_if(env, st, names, e, t, c, m, vars);
        },
        ExprKind::Restrict { operand } => {
            a_text_has_the_value_of_its_expression(env, st, names, operand, t, c, m, vars);
        },
        ExprKind::AutoRestrict { operand } => {
            a_text_has_the_value_of_its_expression(env, st, names, operand, t, c, m, vars);
        },
        ExprKind::Case { branches } => {
            lemma_case(env, st, names, branches@, t, c, m, vars);
        },
        ExprKind::MultiArg { operator, args } => {
            lemma_values(env, st, names, args@, t, c, m, vars);
            lemma_many(env, st, names, e, t, c, m, vars);
        },
        ExprKind::Binary { operator, lhs, rhs } => {
            let s1 = value(env, st, names, lhs).1;
            a_text_has_the_value_of_its_expression(env, st, names, lhs, t, c, m, vars);
            a_text_has_the_value_of_its_expression(env, s1, names, rhs, t, c, m, vars);
            lemma_binary(env, st, names, e, t, c, m, vars);
        },
        ExprKind::Unary { operator, operand } => {
            a_text_has_the_value_of_its_expression(env, st, names, operand, t, c, m, vars);
            lemma_unary(env, st, names, e, t, c, m, vars);
        },
        _ => {},
    }
}

proof fn lemma_fold_names(op: Seq<char>)
    requires
        is_binary_op(folding_op(op)),
    ensures
        fold_operation(op) is Some,
        operation_of(folding_op(op)) == fold_operation(op),
{
    lemma_sign(folding_op(op), Seq::empty(), Seq::empty());
    reveal_strlit("+");
    reveal_strlit("-");
    reveal_strlit("*");
    reveal_strlit("sum");
    reveal_strlit("prod");
    assert("+"@.len() == 1 && "-"@.len() == 1 && "*"@.len() == 1);
    assert("+"@[0] == '+' && "-"@[0] == '-' && "*"@[0] == '*');
    assert("sum"@.len() == 3 && "prod"@.len() == 4 && "sum"@[0] == 's');
}

/// The value of the equations of a variable: that of the first one whose body applies; the last one
/// is for all the rest.
pub open spec fn denoted_piecewise(
    eqs: Seq<(String, StandardEquation)>,
    p: Seq<int>,
    applies: spec_fn(Seq<char>) -> bool,
    m: Sense,
) -> Number
    decreases eqs.len(),
{
    if eqs.len() <= 1 {
        denoted(eqs[0].1.expr, p, m)
    } else if applies(eqs[0].0@) {
        denoted(eqs[0].1.expr, p, m)
    } else {
        denoted_piecewise(eqs.subrange(1, eqs.len() as int), p, applies, m)
    }
}

pub open spec fn piecewise_read(
    env: Env,
    st: Emitted,
    names: Seq<Seq<char>>,
    eqs: Seq<(String, StandardEquation)>,
    applies: spec_fn(Seq<char>) -> bool,
    t: Texts,
    c: CValues,
    m: Sense,
) -> bool
    decreases eqs.len(),
{
    if eqs.len() == 0 {
        true
    } else if eqs.len() == 1 {
        expression_read(env, st, names, eqs[0].1.expr, t, c, m)
    } else {
        let rest = eqs.subrange(1, eqs.len() as int);
        let s1 = piecewise_value(env, st, names, rest).1;
        &&& piecewise_read(env, st, names, rest, applies, t, c, m)
        &&& expression_read(env, s1, names, eqs[0].1.expr, t, c, m)
        &&& choice_read(
            eqs[0].0@,
            value(env, s1, names, eqs[0].1.expr).0->Ok_0,
            piecewise_value(env, st, names, rest).0->Ok_0,
            c,
            |vars: Map<Seq<char>, int>| applies(eqs[0].0@),
        )
    }
}

/// The text that is generated for the equations of a variable has the value of the one whose body
/// applies.
pub proof fn a_text_has_the_value_of_the_equation_that_applies(
    env: Env,
    st: Emitted,
    names: Seq<Seq<char>>,
    eqs: Seq<(String, StandardEquation)>,
    applies: spec_fn(Seq<char>) -> bool,
    t: Texts,
    c: CValues,
    m: Sense,
    vars: Map<Seq<char>, int>,
)
    requires
        eqs.len() > 0,
        piecewise_value(env, st, names, eqs).0 is Ok,
        piecewise_read(env, st, names, eqs, applies, t, c, m),
    ensures
        (c.read)(piecewise_value(env, st, names, eqs).0->Ok_0, vars) == denoted_piecewise(
            eqs,
            point_of(names, vars),
            applies,
            m,
        ),
    decreases eqs.len(),
{
    if eqs.len() == 1 {
        a_text_has_the_value_of_its_expression(env, st, names, eqs[0].1.expr, t, c, m, vars);
    } else {
        let rest = eqs.subrange(1, eqs.len() as int);
        a_text_has_the_value_of_the_equation_that_applies(
            env,
            st,
            names,
            rest,
            applies,
            t,
            c,
            m,
            vars,
        );
        let s1 = piecewise_value(env, st, names, rest).1;
        a_text_has_the_value_of_its_expression(env, s1, names, eqs[0].1.expr, t, c, m, vars);
        let l = value(env, s1, names, eqs[0].1.expr).0->Ok_0;
        let r = piecewise_value(env, st, names, rest).0->Ok_0;
        assert(piecewise_value(env, st, names, eqs).0->Ok_0 == "("@ + eqs[0].0@ + ") ? ("@ + l
            + ") : ("@ + r + ")"@);
    }
}

} // verus!
