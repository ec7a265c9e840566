//! The value of an expression at a point, and what it depends on.
use crate::emission::{is_true, Number};
use crate::expr::{case_value, value, values, Backend, Emitted, Env};
use crate::ir::{AffineFunction, Expr, ExprKind, Operator, StandardEquation, Template};
use crate::legality::{
    edges_of, equation_reads, read_edges, reads, reads_of_first, EdgeModel, ProducerModel,
    ReadModel,
};
use crate::stmt::{KindModel, StatementModel};
use crate::walk::lemma_in_sum;
use vstd::prelude::*;

verus! {

/// What an operator of two values does.
pub enum Operation {
    Add,
    Subtract,
    Multiply,
    Divide,
    Equal,
    Unequal,
    AtLeast,
    Greater,
    Less,
    AtMost,
    And,
    Or,
    Least,
    Greatest,
    Exclusive,
}

/// What the name of an operator stands for.
pub open spec fn operation_of(op: Seq<char>) -> Option<Operation> {
    if op == "+"@ {
        Some(Operation::Add)
    } else if op == "-"@ {
        Some(Operation::Subtract)
    } else if op == "*"@ {
        Some(Operation::Multiply)
    } else if op == "/"@ {
        Some(Operation::Divide)
    } else if op == "="@ {
        Some(Operation::Equal)
    } else if op == "!="@ {
        Some(Operation::Unequal)
    } else if op == ">="@ {
        Some(Operation::AtLeast)
    } else if op == ">"@ {
        Some(Operation::Greater)
    } else if op == "<"@ {
        Some(Operation::Less)
    } else if op == "<="@ {
        Some(Operation::AtMost)
    } else if op == "and"@ {
        Some(Operation::And)
    } else if op == "or"@ {
        Some(Operation::Or)
    } else if op == "min"@ {
        Some(Operation::Least)
    } else if op == "max"@ {
        Some(Operation::Greatest)
    } else if op == "xor"@ {
        Some(Operation::Exclusive)
    } else {
        None
    }
}

/// What the name of an operator of many values stands for.
pub open spec fn fold_operation(op: Seq<char>) -> Option<Operation> {
    if op == "sum"@ {
        Some(Operation::Add)
    } else if op == "prod"@ {
        Some(Operation::Multiply)
    } else {
        operation_of(op)
    }
}

/// What the parts of an expression come to that are not spelled out here.
pub struct Sense {
    /// The value of a variable at a point.
    pub cell: spec_fn(Seq<char>, Seq<int>) -> Number,
    pub image: spec_fn(AffineFunction, Seq<int>) -> Seq<int>,
    /// Whether a point lies in a context.
    pub inside: spec_fn(Template, Seq<int>) -> bool,
    pub apply: spec_fn(Operation, Number, Number) -> Number,
    pub negated: spec_fn(Number) -> Number,
    pub inverted: spec_fn(Number) -> Number,
    pub call: spec_fn(Seq<char>, Seq<Number>) -> Number,
    pub literal: spec_fn(Seq<char>) -> Number,
    pub index: spec_fn(int) -> Number,
    /// What is neither computed in place nor read.
    pub other: spec_fn(Expr, Seq<int>) -> Number,
}

/// The value of a constant.
pub open spec fn constant_of(k: ExprKind, m: Sense) -> Option<Number> {
    match k {
        ExprKind::Bool(b) => Some(
            if b {
                Number::Finite(1, 1)
            } else {
                Number::Finite(0, 1)
            },
        ),
        ExprKind::Int(s) => Some((m.literal)(s@)),
        ExprKind::Real(s) => Some((m.literal)(s@)),
        _ => None,
    }
}

/// The value of an expression at a point.
pub open spec fn denoted(e: Expr, p: Seq<int>, m: Sense) -> Number
    decreases e, 0nat,
{
    match *e.kind {
        ExprKind::Variable(name) => (m.cell)(name@, p),
        ExprKind::Bool(_) | ExprKind::Int(_) | ExprKind::Real(_) => constant_of(*e.kind, m)->Some_0,
        ExprKind::Dependence { function, operand } => denoted(operand, (m.image)(function, p), m),
        ExprKind::IndexFunction { function } => (m.index)((m.image)(function, p)[0]),
        ExprKind::If { cond, then_branch, else_branch } => if is_true(denoted(cond, p, m)) {
            denoted(then_branch, p, m)
        } else {
            denoted(else_branch, p, m)
        },
        ExprKind::Restrict { operand } => denoted(operand, p, m),
        ExprKind::AutoRestrict { operand } => denoted(operand, p, m),
        ExprKind::Case { branches } => denoted_case(branches@, p, m),
        ExprKind::MultiArg { operator, args } => {
            let all = denoted_all(args@, p, m);
            match operator {
                Operator::External(name) => (m.call)(name@, all),
                Operator::Named(op) => folded_values(fold_operation(op@), all, m),
            }
        },
        ExprKind::Binary { operator, lhs, rhs } => match operation_of(operator@) {
            Some(o) => (m.apply)(o, denoted(lhs, p, m), denoted(rhs, p, m)),
            None => (m.other)(e, p),
        },
        ExprKind::Unary { operator, operand } => if operator@ == "-"@ {
            (m.negated)(denoted(operand, p, m))
        } else if operator@ == "not"@ {
            (m.inverted)(denoted(operand, p, m))
        } else {
            (m.other)(e, p)
        },
        _ => (m.other)(e, p),
    }
}

/// The value of the first branch whose context holds the point; the last branch is for all the rest.
pub open spec fn denoted_case(branches: Seq<Expr>, p: Seq<int>, m: Sense) -> Number
    decreases branches, 0nat,
{
    if branches.len() == 0 {
        Number::Finite(0, 1)
    } else if branches.len() == 1 {
        denoted(branches[0], p, m)
    } else if (branches[0].context matches Some(c) && (m.inside)(c, p)) {
        denoted(branches[0], p, m)
    } else {
        denoted_case(branches.subrange(1, branches.len() as int), p, m)
    }
}

pub open spec fn denoted_all(v: Seq<Expr>, p: Seq<int>, m: Sense) -> Seq<Number>
    decreases v, 0nat,
{
    if v.len() == 0 {
        Seq::empty()
    } else {
        denoted_all(v.drop_last(), p, m).push(denoted(v.last(), p, m))
    }
}

/// Several values, folded from the left.
pub open spec fn folded_values(o: Option<Operation>, all: Seq<Number>, m: Sense) -> Number
    decreases all.len(),
{
    if all.len() <= 1 {
        all[0]
    } else {
        (m.apply)(o->Some_0, folded_values(o, all.drop_last(), m), all.last())
    }
}

/// Two ways of reading differ in the values of variables only.
pub open spec fn same_but_cells(m: Sense, n: Sense) -> bool {
    m == (Sense { cell: m.cell, ..n })
}

/// The variables have the same values wherever a read goes.
pub open spec fn agree_on(all: Seq<ReadModel>, p: Seq<int>, m: Sense, n: Sense) -> bool {
    forall|r: ReadModel| #[trigger]
        all.contains(r) ==> (m.cell)(r.variable, (m.image)(r.function, p)) == (n.cell)(
            r.variable,
            (m.image)(r.function, p),
        )
}

proof fn lemma_agree_sum(
    a: Seq<ReadModel>,
    b: Seq<ReadModel>,
    p: Seq<int>,
    m: Sense,
    n: Sense,
)
    requires
        agree_on(a + b, p, m, n),
    ensures
        agree_on(a, p, m, n),
        agree_on(b, p, m, n),
{
    assert forall|r: ReadModel| a.contains(r) || b.contains(r) implies (a + b).contains(r) by {
        lemma_in_sum(a, b, r);
    }
}

proof fn lemma_reads_of_first(v: Vec<Expr>, k: nat, r: ReadModel)
    requires
        k <= v@.len(),
    ensures
        reads_of_first(v, k).contains(r) <==> exists|i: int|
            0 <= i < k && reads(#[trigger] v@[i]).contains(r),
    decreases k,
{
    if k > 0 {
        lemma_reads_of_first(v, (k - 1) as nat, r);
        let before = reads_of_first(v, (k - 1) as nat);
        lemma_in_sum(before, reads(v@[k - 1]), r);
        if exists|i: int| 0 <= i < k && reads(#[trigger] v@[i]).contains(r) {
            let i = choose|i: int| 0 <= i < k && reads(#[trigger] v@[i]).contains(r);
            if i < k - 1 {
                assert(before.contains(r));
            }
        }
    }
}

proof fn lemma_agree_list(v: Vec<Expr>, p: Seq<int>, m: Sense, n: Sense)
    requires
        agree_on(reads_of_first(v, v@.len()), p, m, n),
    ensures
        forall|i: int| 0 <= i < v@.len() ==> agree_on(reads(#[trigger] v@[i]), p, m, n),
{
    assert forall|i: int| 0 <= i < v@.len() implies agree_on(reads(#[trigger] v@[i]), p, m, n) by {
        assert forall|r: ReadModel| #[trigger] reads(v@[i]).contains(r) implies (m.cell)(
            r.variable,
            (m.image)(r.function, p),
        ) == (n.cell)(r.variable, (m.image)(r.function, p)) by {
            lemma_reads_of_first(v, v@.len(), r);
            assert(reads_of_first(v, v@.len()).contains(r));
        }
    }
}

proof fn lemma_case_alike(
    env: Env,
    st: Emitted,
    names: Seq<Seq<char>>,
    branches: Seq<Expr>,
    p: Seq<int>,
    m: Sense,
    n: Sense,
)
    requires
        env.backend == Backend::ScheduledC,
        case_value(env, st, names, branches).0 is Ok,
        same_but_cells(m, n),
        forall|i: int| 0 <= i < branches.len() ==> agree_on(reads(#[trigger] branches[i]), p, m, n),
    ensures
        denoted_case(branches, p, m) == denoted_case(branches, p, n),
    decreases branches, 0nat,
{
    if branches.len() == 1 {
        a_value_depends_on_its_reads_only(env, st, names, branches[0], p, m, n);
    } else if branches.len() > 1 {
        let rest = branches.subrange(1, branches.len() as int);
        assert forall|i: int| 0 <= i < rest.len() implies agree_on(
            reads(#[trigger] rest[i]),
            p,
            m,
            n,
        ) by {
            assert(rest[i] == branches[i + 1]);
        }
        lemma_case_alike(env, st, names, rest, p, m, n);
        let s1 = case_value(env, st, names, rest).1;
        a_value_depends_on_its_reads_only(env, s1, names, branches[0], p, m, n);
    }
}

proof fn lemma_all_alike(
    env: Env,
    st: Emitted,
    names: Seq<Seq<char>>,
    v: Seq<Expr>,
    p: Seq<int>,
    m: Sense,
    n: Sense,
)
    requires
        env.backend == Backend::ScheduledC,
        values(env, st, names, v).0 is Ok,
        same_but_cells(m, n),
        forall|i: int| 0 <= i < v.len() ==> agree_on(reads(#[trigger] v[i]), p, m, n),
    ensures
        denoted_all(v, p, m) == denoted_all(v, p, n),
    decreases v, 0nat,
{
    if v.len() > 0 {
        let before = v.drop_last();
        assert forall|i: int| 0 <= i < before.len() implies agree_on(
            reads(#[trigger] before[i]),
            p,
            m,
            n,
        ) by {
            assert(before[i] == v[i]);
        }
        lemma_all_alike(env, st, names, before, p, m, n);
        let s1 = values(env, st, names, before).1;
        assert(v.last() == v[v.len() - 1]);
        a_value_depends_on_its_reads_only(env, s1, names, v.last(), p, m, n);
    }
}

proof fn lemma_folded_alike(o: Option<Operation>, all: Seq<Number>, m: Sense, n: Sense)
    requires
        same_but_cells(m, n),
    ensures
        folded_values(o, all, m) == folded_values(o, all, n),
    decreases all.len(),
{
    if all.len() > 1 {
        lemma_folded_alike(o, all.drop_last(), m, n);
    }
}

/// The value of an expression that code is generated for in place depends on its reads only: where
/// the variables have the same values wherever its reads go, it has the same value. So nothing that
/// it depends on is missing among its reads.
pub proof fn a_value_depends_on_its_reads_only(
    env: Env,
    st: Emitted,
    names: Seq<Seq<char>>,
    e: Expr,
    p: Seq<int>,
    m: Sense,
    n: Sense,
)
    requires
        env.backend == Backend::ScheduledC,
        value(env, st, names, e).0 is Ok,
        same_but_cells(m, n),
        agree_on(reads(e), p, m, n),
    ensures
        denoted(e, p, m) == denoted(e, p, n),
    decreases e, 0nat,
{
    match *e.kind {
        ExprKind::Dependence { function, operand } => {
            match *operand.kind {
                ExprKind::Variable(name) => {
                    let r = ReadModel { function, variable: name@ };
                    assert(reads(e) == seq![r]);
                    assert(seq![r][0] == r);
                    assert(reads(e).contains(r));
                    let q = (m.image)(function, p);
                    assert(denoted(operand, q, m) == (m.cell)(name@, q));
                    assert(denoted(operand, q, n) == (n.cell)(name@, q));
                    assert(denoted(e, p, m) == denoted(operand, q, m));
                    assert(denoted(e, p, n) == denoted(operand, (n.image)(function, p), n));
                },
                _ => {
                    let q = (m.image)(function, p);
                    assert(constant_of(*operand.kind, m) == constant_of(*operand.kind, n));
                    assert(denoted(operand, q, m) == denoted(operand, q, n));
                },
            }
        },
        ExprKind::If { cond, then_branch, else_branch } => {
            lemma_agree_sum(reads(cond) + reads(then_branch), reads(else_branch), p, m, n);
            lemma_agree_sum(reads(cond), reads(then_branch), p, m, n);
            let s1 = value(env, st, names, cond).1;
            let s2 = value(env, s1, names, then_branch).1;
            a_value_depends_on_its_reads_only(env, st, names, cond, p, m, n);
            a_value_depends_on_its_reads_only(env, s1, names, then_branch, p, m, n);
            a_value_depends_on_its_reads_only(env, s2, names, else_branch, p, m, n);
        },
        ExprKind::Restrict { operand } => {
            a_value_depends_on_its_reads_only(env, st, names, operand, p, m, n);
        },
        ExprKind::AutoRestrict { operand } => {
            a_value_depends_on_its_reads_only(env, st, names, operand, p, m, n);
        },
        ExprKind::Case { branches } => {
            lemma_agree_list(branches, p, m, n);
            lemma_case_alike(env, st, names, branches@, p, m, n);
        },
        ExprKind::MultiArg { operator, args } => {
            lemma_agree_list(args, p, m, n);
            lemma_all_alike(env, st, names, args@, p, m, n);
            if let Operator::Named(op) = operator {
                lemma_folded_alike(fold_operation(op@), denoted_all(args@, p, m), m, n);
            }
        },
        ExprKind::Binary { operator, lhs, rhs } => {
            lemma_agree_sum(reads(lhs), reads(rhs), p, m, n);
            let s1 = value(env, st, names, lhs).1;
            a_value_depends_on_its_reads_only(env, st, names, lhs, p, m, n);
            a_value_depends_on_its_reads_only(env, s1, names, rhs, p, m, n);
        },
        ExprKind::Unary { operator, operand } => {
            a_value_depends_on_its_reads_only(env, st, names, operand, p, m, n);
        },
        _ => {},
    }
}

/// The expression itself is the read of a variable through a function.
pub open spec fn is_read(e: Expr, r: ReadModel) -> bool {
    *e.kind matches ExprKind::Dependence { function, operand } && function == r.function
        && (*operand.kind matches ExprKind::Variable(name) && name@ == r.variable)
}

/// `x` is an operand, a branch or an argument of `e`, and is computed in place.
pub open spec fn is_operand(x: Expr, e: Expr) -> bool {
    match *e.kind {
        ExprKind::If { cond, then_branch, else_branch } => x == cond || x == then_branch || x
            == else_branch,
        ExprKind::Restrict { operand } => x == operand,
        ExprKind::AutoRestrict { operand } => x == operand,
        ExprKind::Unary { operator, operand } => x == operand,
        ExprKind::Case { branches } => branches@.contains(x),
        ExprKind::MultiArg { operator, args } => args@.contains(x),
        ExprKind::Binary { operator, lhs, rhs } => x == lhs || x == rhs,
        _ => false,
    }
}

proof fn lemma_reads_of_list(v: Vec<Expr>, r: ReadModel)
    ensures
        reads_of_first(v, v@.len()).contains(r) <==> exists|x: Expr| #[trigger]
            v@.contains(x) && reads(x).contains(r),
{
    lemma_reads_of_first(v, v@.len(), r);
    if reads_of_first(v, v@.len()).contains(r) {
        let i = choose|i: int| 0 <= i < v@.len() && reads(#[trigger] v@[i]).contains(r);
        assert(v@.contains(v@[i]));
    }
    if exists|x: Expr| #[trigger] v@.contains(x) && reads(x).contains(r) {
        let x = choose|x: Expr| #[trigger] v@.contains(x) && reads(x).contains(r);
        let i = choose|i: int| 0 <= i < v@.len() && v@[i] == x;
        assert(reads(v@[i]).contains(r));
    }
}

/// The reads of an expression are the read that it is itself, and those of all of its operands, at
/// any depth.
pub proof fn the_reads_are_those_of_all_operands(e: Expr, r: ReadModel)
    ensures
        reads(e).contains(r) <==> is_read(e, r) || exists|x: Expr| #[trigger]
            is_operand(x, e) && reads(x).contains(r),
{
    match *e.kind {
        ExprKind::Dependence { function, operand } => {
            if let ExprKind::Variable(name) = *operand.kind {
                let own = ReadModel { function, variable: name@ };
                assert(seq![own][0] == own);
            }
        },
        ExprKind::If { cond, then_branch, else_branch } => {
            lemma_in_sum(reads(cond) + reads(then_branch), reads(else_branch), r);
            lemma_in_sum(reads(cond), reads(then_branch), r);
            assert(is_operand(cond, e) && is_operand(then_branch, e) && is_operand(else_branch, e));
        },
        ExprKind::Restrict { operand } => {
            assert(is_operand(operand, e));
        },
        ExprKind::AutoRestrict { operand } => {
            assert(is_operand(operand, e));
        },
        ExprKind::Unary { operator, operand } => {
            assert(is_operand(operand, e));
        },
        ExprKind::Case { branches } => {
            lemma_reads_of_list(branches, r);
            if reads(e).contains(r) {
                let x = choose|x: Expr| #[trigger] branches@.contains(x) && reads(x).contains(r);
                assert(is_operand(x, e));
            }
        },
        ExprKind::MultiArg { operator, args } => {
            lemma_reads_of_list(args, r);
            if reads(e).contains(r) {
                let x = choose|x: Expr| #[trigger] args@.contains(x) && reads(x).contains(r);
                assert(is_operand(x, e));
            }
        },
        ExprKind::Binary { operator, lhs, rhs } => {
            lemma_in_sum(reads(lhs), reads(rhs), r);
            assert(is_operand(lhs, e) && is_operand(rhs, e));
        },
        _ => {},
    }
}

proof fn lemma_equation_reads(equations: Seq<(String, StandardEquation)>, r: ReadModel)
    ensures
        equation_reads(equations).contains(r) <==> exists|i: int|
            0 <= i < equations.len() && reads((#[trigger] equations[i]).1.expr).contains(r),
    decreases equations.len(),
{
    if equations.len() > 0 {
        let before = equations.drop_last();
        let last = equations[equations.len() - 1];
        lemma_equation_reads(before, r);
        lemma_in_sum(equation_reads(before), reads(last.1.expr), r);
        if equation_reads(before).contains(r) {
            let i = choose|i: int|
                0 <= i < before.len() && reads((#[trigger] before[i]).1.expr).contains(r);
            assert(reads(equations[i].1.expr).contains(r));
        }
        if exists|i: int|
            0 <= i < equations.len() && reads((#[trigger] equations[i]).1.expr).contains(r) {
            let i = choose|i: int|
                0 <= i < equations.len() && reads((#[trigger] equations[i]).1.expr).contains(r);
            if i < before.len() {
                assert(reads(before[i].1.expr).contains(r));
            }
        }
    }
}

proof fn lemma_read_edges(all: Seq<ReadModel>, r: ReadModel)
    ensures
        read_edges(all).contains(edge_to(r)) <==> all.contains(r),
{
    if all.contains(r) {
        let i = choose|i: int| 0 <= i < all.len() && all[i] == r;
        assert(read_edges(all)[i] == edge_to(r));
    }
    if read_edges(all).contains(edge_to(r)) {
        let i = choose|i: int| 0 <= i < read_edges(all).len() && read_edges(all)[i] == edge_to(r);
        assert(all[i] == r);
    }
}

/// The dependence on what a read goes to.
pub open spec fn edge_to(r: ReadModel) -> EdgeModel {
    EdgeModel { function: r.function, producer: ProducerModel::Variable(r.variable) }
}

/// A statement has a dependence for every read of each of its equations, or of the body of its
/// reduction, or for every input of its call, and none for any other variable. The step of a
/// reduction depends on the start of it as well.
pub proof fn a_statement_depends_on_all_it_reads(s: StatementModel, r: ReadModel)
    ensures
        edges_of(s).contains(edge_to(r)) <==> match s.kind {
            KindModel::Ordinary { equations } => exists|i: int|
                0 <= i < equations.len() && reads((#[trigger] equations[i]).1.expr).contains(r),
            KindModel::ReduceInit { reduce_local, operator, body_context } => false,
            KindModel::ReduceStep { reduce_local, operator, body, body_context, projection } =>
                reads(body).contains(r),
            KindModel::OperationCall(call) => exists|i: int|
                0 <= i < call.inputs@.len() && (#[trigger] call.inputs@[i]).function == r.function
                    && call.inputs@[i].variable@ == r.variable,
        },
        s.kind matches KindModel::ReduceStep {
            reduce_local,
            operator,
            body,
            body_context,
            projection,
        } ==> edges_of(s).contains(
            EdgeModel {
                function: projection,
                producer: ProducerModel::Named(reduce_local + "__init"@),
            },
        ),
{
    let own = edge_to(r);
    match s.kind {
        KindModel::Ordinary { equations } => {
            lemma_read_edges(equation_reads(equations), r);
            lemma_equation_reads(equations, r);
        },
        KindModel::ReduceInit { reduce_local, operator, body_context } => {},
        KindModel::ReduceStep { reduce_local, operator, body, body_context, projection } => {
            let first = EdgeModel {
                function: projection,
                producer: ProducerModel::Named(reduce_local + "__init"@),
            };
            lemma_read_edges(reads(body), r);
            lemma_in_sum(seq![first], read_edges(reads(body)), own);
            lemma_in_sum(seq![first], read_edges(reads(body)), first);
            assert(seq![first][0] == first);
        },
        KindModel::OperationCall(call) => {
            let all = edges_of(s);
            if all.contains(own) {
                let i = choose|i: int| 0 <= i < all.len() && all[i] == own;
                assert(call.inputs@[i].function == r.function);
            }
            if exists|i: int|
                0 <= i < call.inputs@.len() && (#[trigger] call.inputs@[i]).function == r.function
                    && call.inputs@[i].variable@ == r.variable {
                let i = choose|i: int|
                    0 <= i < call.inputs@.len() && (#[trigger] call.inputs@[i]).function
                        == r.function && call.inputs@[i].variable@ == r.variable;
                assert(all[i] == own);
            }
        },
    }
}

} // verus!
