//! What a generated syntax tree stands for, and that the program made of it runs the same instances.
use crate::index_meaning::{
    all_hold, holds, index_value, larger, largest, smaller, smallest, some_holds, Arithmetic,
};
use crate::scheduled_ir::{
    comparison, converted_index, converted_indices, converted_node, converted_nodes,
    converted_predicate, converted_predicates, statement_position, AstExpr, AstNode, AstOp,
    IndexModel,
};
use crate::trace_meaning::{env_of, index_values, traced, traced_all, traced_loop, Trace};
use vstd::prelude::*;

verus! {

/// The value of an index expression of a syntax tree.
pub open spec fn ast_value(e: AstExpr, a: Arithmetic, env: spec_fn(Seq<char>) -> int) -> int
    decreases e, 0nat,
{
    match e {
        AstExpr::Int(Ok(n)) => n as int,
        AstExpr::Int(Err(_)) => 0,
        AstExpr::Id(s) => env(s@),
        AstExpr::Op { op, label, args } => match op {
            AstOp::Minus => if args@.len() > 0 {
                -ast_value(args@[0], a, env)
            } else {
                0
            },
            AstOp::Min => least_of(args@, a, env),
            AstOp::Max => greatest_of(args@, a, env),
            _ => if args@.len() < 2 {
                0
            } else {
                let x = ast_value(args@[0], a, env);
                let y = ast_value(args@[1], a, env);
                match op {
                    AstOp::Add => x + y,
                    AstOp::Sub => x - y,
                    AstOp::Mul => x * y,
                    AstOp::Div | AstOp::PdivQ => (a.quotient)(x, y),
                    AstOp::FdivQ => (a.floor)(x, y),
                    AstOp::PdivR | AstOp::ZdivR => (a.remainder)(x, y),
                    _ => 0,
                }
            },
        },
    }
}

/// The smallest of several values; of none, zero.
pub open spec fn least_of(v: Seq<AstExpr>, a: Arithmetic, env: spec_fn(Seq<char>) -> int) -> int
    decreases v, 0nat,
{
    if v.len() == 0 {
        0
    } else if v.len() == 1 {
        ast_value(v[0], a, env)
    } else {
        smaller(least_of(v.drop_last(), a, env), ast_value(v.last(), a, env))
    }
}

/// The largest of several values; of none, zero.
pub open spec fn greatest_of(v: Seq<AstExpr>, a: Arithmetic, env: spec_fn(Seq<char>) -> int) -> int
    decreases v, 0nat,
{
    if v.len() == 0 {
        0
    } else if v.len() == 1 {
        ast_value(v[0], a, env)
    } else {
        larger(greatest_of(v.drop_last(), a, env), ast_value(v.last(), a, env))
    }
}

/// Whether a condition of a syntax tree holds.
pub open spec fn ast_truth(e: AstExpr, a: Arithmetic, env: spec_fn(Seq<char>) -> int) -> bool
    decreases e, 0nat,
{
    match e {
        AstExpr::Int(Ok(n)) => n != 0,
        AstExpr::Int(Err(_)) => false,
        AstExpr::Id(s) => false,
        AstExpr::Op { op, label, args } => match op {
            AstOp::And | AstOp::AndThen => every_truth(args@, a, env),
            AstOp::Or | AstOp::OrElse => some_truth(args@, a, env),
            _ => args@.len() >= 2 && {
                let x = ast_value(args@[0], a, env);
                let y = ast_value(args@[1], a, env);
                match op {
                    AstOp::Eq => x == y,
                    AstOp::Le => x <= y,
                    AstOp::Lt => x < y,
                    AstOp::Ge => x >= y,
                    AstOp::Gt => x > y,
                    _ => false,
                }
            },
        },
    }
}

pub open spec fn every_truth(v: Seq<AstExpr>, a: Arithmetic, env: spec_fn(Seq<char>) -> int) -> bool
    decreases v, 0nat,
{
    v.len() == 0 || (every_truth(v.drop_last(), a, env) && ast_truth(v.last(), a, env))
}

pub open spec fn some_truth(v: Seq<AstExpr>, a: Arithmetic, env: spec_fn(Seq<char>) -> int) -> bool
    decreases v, 0nat,
{
    v.len() > 0 && (some_truth(v.drop_last(), a, env) || ast_truth(v.last(), a, env))
}

proof fn lemma_indices(v: Seq<AstExpr>, a: Arithmetic, env: spec_fn(Seq<char>) -> int)
    requires
        converted_indices(v) is Ok,
    ensures
        converted_indices(v)->Ok_0.len() == v.len(),
        smallest(converted_indices(v)->Ok_0, a, env) == least_of(v, a, env),
        largest(converted_indices(v)->Ok_0, a, env) == greatest_of(v, a, env),
        forall|i: int|
            0 <= i < v.len() ==> index_value(#[trigger] converted_indices(v)->Ok_0[i], a, env)
                == ast_value(v[i], a, env),
    decreases v, 0nat,
{
    if v.len() > 0 {
        lemma_indices(v.drop_last(), a, env);
        an_index_keeps_its_value(v.last(), a, env);
        let before = converted_indices(v.drop_last())->Ok_0;
        let last = converted_index(v.last())->Ok_0;
        let all = converted_indices(v)->Ok_0;
        assert(all == before.push(last));
        assert(all.drop_last() =~= before);
        assert(all.last() == last);
        if v.len() == 1 {
            assert(v[0] == v.last());
            assert(all[0] == last);
        }
    }
}

/// The index expression made of one of a syntax tree has its value.
pub proof fn an_index_keeps_its_value(e: AstExpr, a: Arithmetic, env: spec_fn(Seq<char>) -> int)
    requires
        converted_index(e) is Ok,
    ensures
        index_value(converted_index(e)->Ok_0, a, env) == ast_value(e, a, env),
    decreases e, 0nat,
{
    if let AstExpr::Op { op, label, args } = e {
        match op {
            AstOp::Minus => {
                an_index_keeps_its_value(args@[0], a, env);
                let inner = converted_index(args@[0])->Ok_0;
                let m = converted_index(e)->Ok_0;
                assert(m == IndexModel::Sub(Box::new(IndexModel::Constant(0)), Box::new(inner)));
                assert(index_value(IndexModel::Constant(0), a, env) == 0);
            },
            AstOp::Min | AstOp::Max => {
                lemma_indices(args@, a, env);
            },
            _ => {
                if args@.len() == 2 {
                    an_index_keeps_its_value(args@[0], a, env);
                    an_index_keeps_its_value(args@[1], a, env);
                }
            },
        }
    }
}

proof fn lemma_truths(v: Seq<AstExpr>, a: Arithmetic, env: spec_fn(Seq<char>) -> int)
    requires
        converted_predicates(v) is Ok,
    ensures
        all_hold(converted_predicates(v)->Ok_0, a, env) == every_truth(v, a, env),
        some_holds(converted_predicates(v)->Ok_0, a, env) == some_truth(v, a, env),
    decreases v, 0nat,
{
    if v.len() > 0 {
        lemma_truths(v.drop_last(), a, env);
        a_predicate_keeps_its_truth(v.last(), a, env);
        let before = converted_predicates(v.drop_last())->Ok_0;
        let last = converted_predicate(v.last())->Ok_0;
        let all = converted_predicates(v)->Ok_0;
        assert(all == before.push(last));
        assert(all.drop_last() =~= before);
        assert(all.last() == last);
    }
}

/// The predicate made of a condition of a syntax tree holds where the condition does.
pub proof fn a_predicate_keeps_its_truth(
    e: AstExpr,
    a: Arithmetic,
    env: spec_fn(Seq<char>) -> int,
)
    requires
        converted_predicate(e) is Ok,
    ensures
        holds(converted_predicate(e)->Ok_0, a, env) == ast_truth(e, a, env),
    decreases e, 0nat,
{
    if let AstExpr::Op { op, label, args } = e {
        match op {
            AstOp::And | AstOp::AndThen | AstOp::Or | AstOp::OrElse => {
                lemma_truths(args@, a, env);
            },
            _ => {
                if comparison(op) is Some {
                    an_index_keeps_its_value(args@[0], a, env);
                    an_index_keeps_its_value(args@[1], a, env);
                }
            },
        }
    }
}

/// The statement at a place is the one that a name means: no later one has the name.
pub open spec fn is_meant(names: Seq<Seq<char>>, name: Seq<char>, k: nat) -> bool {
    &&& k < names.len()
    &&& names[k as int] == name
    &&& forall|j: int| k < j < names.len() ==> #[trigger] names[j] != name
}

/// The place of the statement that a name means.
pub open spec fn the_meant(names: Seq<Seq<char>>, name: Seq<char>) -> nat {
    choose|k: nat| is_meant(names, name, k)
}

proof fn lemma_position(names: Seq<Seq<char>>, name: Seq<char>)
    ensures
        match statement_position(names, name) {
            Some(k) => is_meant(names, name, k),
            None => !names.contains(name),
        },
    decreases names.len(),
{
    if names.len() > 0 {
        lemma_position(names.drop_last(), name);
        assert forall|j: int| 0 <= j < names.len() - 1 implies #[trigger] names[j]
            == names.drop_last()[j] by {}
        if statement_position(names, name) is None && names.contains(name) {
            let i = choose|i: int| 0 <= i < names.len() && names[i] == name;
            assert(names.drop_last()[i] == name);
        }
    }
}

/// What a syntax tree runs: the instances of the statements that are called by their names.
pub open spec fn ast_traced(
    n: AstNode,
    names: Seq<Seq<char>>,
    a: Arithmetic,
    limit: nat,
    vars: Map<Seq<char>, int>,
) -> Option<Trace>
    decreases n, 0nat,
{
    match n {
        AstNode::For { iterator, init, cond, inc, body } => ast_traced_loop(
            iterator@,
            cond,
            inc,
            *body,
            names,
            a,
            limit,
            limit,
            vars.insert(iterator@, ast_value(init, a, env_of(vars))),
        ),
        AstNode::If { cond, then_body, else_body } => if ast_truth(cond, a, env_of(vars)) {
            ast_traced(*then_body, names, a, limit, vars)
        } else {
            match else_body {
                Some(b) => ast_traced(*b, names, a, limit, vars),
                None => Some(Trace { vars, instances: Seq::empty() }),
            }
        },
        AstNode::Block(v) => ast_traced_all(v@, names, a, limit, vars),
        AstNode::User { name, indices } => Some(
            Trace {
                vars,
                instances: seq![
                    (
                        match name {
                            Some(s) => the_meant(names, s@),
                            None => 0,
                        },
                        Seq::new(
                            indices@.len(),
                            |i: int| ast_value(indices@[i], a, env_of(vars)),
                        ),
                    ),
                ],
            },
        ),
        AstNode::Other => None,
    }
}

pub open spec fn ast_traced_all(
    v: Seq<AstNode>,
    names: Seq<Seq<char>>,
    a: Arithmetic,
    limit: nat,
    vars: Map<Seq<char>, int>,
) -> Option<Trace>
    decreases v, 0nat,
{
    if v.len() == 0 {
        Some(Trace { vars, instances: Seq::empty() })
    } else {
        match ast_traced_all(v.drop_last(), names, a, limit, vars) {
            None => None,
            Some(first) => match ast_traced(v.last(), names, a, limit, first.vars) {
                None => None,
                Some(second) => Some(
                    Trace { vars: second.vars, instances: first.instances + second.instances },
                ),
            },
        }
    }
}

pub open spec fn ast_traced_loop(
    iterator: Seq<char>,
    cond: AstExpr,
    inc: AstExpr,
    body: AstNode,
    names: Seq<Seq<char>>,
    a: Arithmetic,
    limit: nat,
    n: nat,
    vars: Map<Seq<char>, int>,
) -> Option<Trace>
    decreases body, n + 1,
{
    if !ast_truth(cond, a, env_of(vars)) {
        Some(Trace { vars, instances: Seq::empty() })
    } else if n == 0 {
        None
    } else {
        match ast_traced(body, names, a, limit, vars) {
            None => None,
            Some(first) => {
                let next = first.vars.insert(
                    iterator,
                    first.vars[iterator] + ast_value(inc, a, env_of(first.vars)),
                );
                match ast_traced_loop(
                    iterator,
                    cond,
                    inc,
                    body,
                    names,
                    a,
                    limit,
                    (n - 1) as nat,
                    next,
                ) {
                    None => None,
                    Some(rest) => Some(
                        Trace { vars: rest.vars, instances: first.instances + rest.instances },
                    ),
                }
            },
        }
    }
}

proof fn lemma_ast_loop(
    iterator: Seq<char>,
    cond: AstExpr,
    inc: AstExpr,
    body: AstNode,
    names: Seq<Seq<char>>,
    a: Arithmetic,
    limit: nat,
    n: nat,
    vars: Map<Seq<char>, int>,
)
    requires
        converted_predicate(cond) is Ok,
        converted_index(inc) is Ok,
        converted_node(body, names) is Ok,
    ensures
        traced_loop(
            iterator,
            converted_predicate(cond)->Ok_0,
            converted_index(inc)->Ok_0,
            converted_node(body, names)->Ok_0,
            a,
            limit,
            n,
            vars,
        ) == ast_traced_loop(iterator, cond, inc, body, names, a, limit, n, vars),
    decreases body, n + 1,
{
    a_predicate_keeps_its_truth(cond, a, env_of(vars));
    if ast_truth(cond, a, env_of(vars)) && n > 0 {
        a_program_runs_what_its_syntax_tree_runs(body, names, a, limit, vars);
        if let Some(first) = ast_traced(body, names, a, limit, vars) {
            an_index_keeps_its_value(inc, a, env_of(first.vars));
            let next = first.vars.insert(
                iterator,
                first.vars[iterator] + ast_value(inc, a, env_of(first.vars)),
            );
            lemma_ast_loop(
                iterator,
                cond,
                inc,
                body,
                names,
                a,
                limit,
                (n - 1) as nat,
                next,
            );
        }
    }
}

proof fn lemma_ast_all(
    v: Seq<AstNode>,
    names: Seq<Seq<char>>,
    a: Arithmetic,
    limit: nat,
    vars: Map<Seq<char>, int>,
)
    requires
        converted_nodes(v, names) is Ok,
    ensures
        traced_all(converted_nodes(v, names)->Ok_0, a, limit, vars) == ast_traced_all(
            v,
            names,
            a,
            limit,
            vars,
        ),
    decreases v, 0nat,
{
    if v.len() > 0 {
        lemma_ast_all(v.drop_last(), names, a, limit, vars);
        let before = converted_nodes(v.drop_last(), names)->Ok_0;
        let last = converted_node(v.last(), names)->Ok_0;
        let all = converted_nodes(v, names)->Ok_0;
        assert(all == before.push(last));
        assert(all.drop_last() =~= before);
        assert(all.last() == last);
        if let Some(first) = ast_traced_all(v.drop_last(), names, a, limit, vars) {
            a_program_runs_what_its_syntax_tree_runs(v.last(), names, a, limit, first.vars);
        }
    }
}

/// The program made of a syntax tree runs what the tree runs: the same instances, in the same order,
/// with the same values of their indices.
pub proof fn a_program_runs_what_its_syntax_tree_runs(
    n: AstNode,
    names: Seq<Seq<char>>,
    a: Arithmetic,
    limit: nat,
    vars: Map<Seq<char>, int>,
)
    requires
        converted_node(n, names) is Ok,
    ensures
        traced(converted_node(n, names)->Ok_0, a, limit, vars) == ast_traced(
            n,
            names,
            a,
            limit,
            vars,
        ),
    decreases n, 0nat,
{
    match n {
        AstNode::For { iterator, init, cond, inc, body } => {
            an_index_keeps_its_value(init, a, env_of(vars));
            lemma_ast_loop(
                iterator@,
                cond,
                inc,
                *body,
                names,
                a,
                limit,
                limit,
                vars.insert(iterator@, ast_value(init, a, env_of(vars))),
            );
        },
        AstNode::If { cond, then_body, else_body } => {
            a_predicate_keeps_its_truth(cond, a, env_of(vars));
            a_program_runs_what_its_syntax_tree_runs(*then_body, names, a, limit, vars);
            if let Some(b) = else_body {
                a_program_runs_what_its_syntax_tree_runs(*b, names, a, limit, vars);
            }
        },
        AstNode::Block(v) => {
            lemma_ast_all(v@, names, a, limit, vars);
        },
        AstNode::User { name, indices } => {
            let s = name->Some_0@;
            lemma_position(names, s);
            lemma_indices(indices@, a, env_of(vars));
            let k = statement_position(names, s)->Some_0;
            let meant = the_meant(names, s);
            assert(is_meant(names, s, k));
            assert(meant == k) by {
                if meant < k {
                    assert(names[k as int] == s);
                } else if k < meant {
                    assert(names[meant as int] == s);
                }
            }
            let all = converted_indices(indices@)->Ok_0;
            assert(index_values(all, a, vars) =~= Seq::new(
                indices@.len(),
                |i: int| ast_value(indices@[i], a, env_of(vars)),
            ));
        },
        AstNode::Other => {},
    }
}

} // verus!
