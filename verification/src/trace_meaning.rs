//! What the loop nest of a scheduled program runs: the instances that the program runs, in the same
//! order, each with the indices it is run for.
use crate::execution::{
    after_event, declares, is_declaration, left_block, lemma_run_one, lemma_run_sum, run_all,
    run_loop, run_stmt, still, Event, Run, Texts,
};
use crate::expr::{picked, piecewise_value, value, Emitted, Env};
use crate::index_meaning::{
    all_hold, c_reads, c_text, c_value, holds, index_value, largest, rendering_keeps_the_value,
    smallest, some_holds, Arithmetic, CTree,
};
use crate::scheduled_ir::{CompareOp, IndexModel, NodeModel, PredicateModel};
use crate::scheduledc::{
    ambient_dims, bindings, cell_text, index_text, index_texts, instance, predicate_text,
    predicate_texts, walked, walked_all,
};
use crate::simplec::{CType, StmtModel};
use crate::stmt::{KindModel, StatementModel};
use crate::text::{joined, views};
use crate::writec::{combined, neutral};
use vstd::prelude::*;

verus! {

/// The values of the variables as a function.
pub open spec fn env_of(vars: Map<Seq<char>, int>) -> spec_fn(Seq<char>) -> int {
    |name: Seq<char>| vars[name]
}

/// The text of an index expression is read by the grammar of C.
pub open spec fn index_read(m: IndexModel, t: Texts, a: Arithmetic) -> bool {
    forall|tree: CTree, vars: Map<Seq<char>, int>|
        c_reads(tree) && #[trigger] c_text(tree) == index_text(m, 0) ==> #[trigger] (t.number)(
            index_text(m, 0),
            vars,
        ) == c_value(tree, a, env_of(vars))
}

proof fn lemma_index_read(m: IndexModel, t: Texts, a: Arithmetic, vars: Map<Seq<char>, int>)
    requires
        index_read(m, t, a),
    ensures
        (t.number)(index_text(m, 0), vars) == index_value(m, a, env_of(vars)),
{
    rendering_keeps_the_value(m);
    let tree = choose|tree: CTree|
        c_reads(tree) && #[trigger] c_text(tree) == index_text(m, 0) && forall|
            a: Arithmetic,
            env: spec_fn(Seq<char>) -> int,
        | #[trigger]
            c_value(tree, a, env) == index_value(m, a, env);
    assert(c_value(tree, a, env_of(vars)) == index_value(m, a, env_of(vars)));
    assert(c_text(tree) == index_text(m, 0));
}

/// How C writes a comparison.
pub open spec fn symbol(op: CompareOp) -> Seq<char> {
    match op {
        CompareOp::Eq => "=="@,
        CompareOp::Le => "<="@,
        CompareOp::Lt => "<"@,
        CompareOp::Ge => ">="@,
        CompareOp::Gt => ">"@,
    }
}

pub open spec fn compares(op: CompareOp, x: int, y: int) -> bool {
    match op {
        CompareOp::Eq => x == y,
        CompareOp::Le => x <= y,
        CompareOp::Lt => x < y,
        CompareOp::Ge => x >= y,
        CompareOp::Gt => x > y,
    }
}

/// Each text in parentheses.
pub open spec fn in_parentheses(v: Seq<PredicateModel>) -> Seq<Seq<char>> {
    Seq::new(v.len(), |i: int| "("@ + predicate_text(v[i]) + ")"@)
}

/// The text of a condition is read as C reads comparisons, `&&`, `||`, `!`, 0 and 1.
pub open spec fn condition_read(p: PredicateModel, t: Texts, a: Arithmetic) -> bool
    decreases p,
{
    match p {
        PredicateModel::Compare { op, lhs, rhs } => {
            let l = index_text(lhs, 0);
            let r = index_text(rhs, 0);
            &&& index_read(lhs, t, a)
            &&& index_read(rhs, t, a)
            &&& forall|vars: Map<Seq<char>, int>| #[trigger]
                (t.truth)(l + " "@ + symbol(op) + " "@ + r, vars) == compares(
                    op,
                    (t.number)(l, vars),
                    (t.number)(r, vars),
                )
        },
        PredicateModel::And(v) => {
            &&& conditions_read(v, t, a)
            &&& forall|vars: Map<Seq<char>, int>| #[trigger]
                (t.truth)(joined(in_parentheses(v), " && "@), vars) <==> forall|i: int|
                    0 <= i < v.len() ==> (t.truth)(predicate_text(#[trigger] v[i]), vars)
        },
        PredicateModel::Or(v) => {
            &&& conditions_read(v, t, a)
            &&& forall|vars: Map<Seq<char>, int>| #[trigger]
                (t.truth)(joined(in_parentheses(v), " || "@), vars) <==> exists|i: int|
                    0 <= i < v.len() && (t.truth)(predicate_text(#[trigger] v[i]), vars)
        },
        PredicateModel::Not(q) => {
            &&& condition_read(*q, t, a)
            &&& forall|vars: Map<Seq<char>, int>| #[trigger]
                (t.truth)("!("@ + predicate_text(*q) + ")"@, vars) == !(t.truth)(
                    predicate_text(*q),
                    vars,
                )
        },
        PredicateModel::Constant(b) => {
            &&& forall|vars: Map<Seq<char>, int>| #[trigger] (t.truth)("1"@, vars) == true
            &&& forall|vars: Map<Seq<char>, int>| #[trigger] (t.truth)("0"@, vars) == false
        },
    }
}

pub open spec fn conditions_read(v: Seq<PredicateModel>, t: Texts, a: Arithmetic) -> bool
    decreases v,
{
    v.len() == 0 || (conditions_read(v.drop_last(), t, a) && condition_read(v.last(), t, a))
}

proof fn lemma_conditions(
    v: Seq<PredicateModel>,
    t: Texts,
    a: Arithmetic,
    vars: Map<Seq<char>, int>,
)
    requires
        conditions_read(v, t, a),
    ensures
        all_hold(v, a, env_of(vars)) <==> forall|i: int|
            0 <= i < v.len() ==> (t.truth)(predicate_text(#[trigger] v[i]), vars),
        some_holds(v, a, env_of(vars)) <==> exists|i: int|
            0 <= i < v.len() && (t.truth)(predicate_text(#[trigger] v[i]), vars),
    decreases v, 0nat,
{
    if v.len() > 0 {
        let before = v.drop_last();
        lemma_conditions(before, t, a, vars);
        a_condition_keeps_its_truth(v.last(), t, a, vars);
        let last = v[v.len() - 1];
        assert forall|i: int| 0 <= i < before.len() implies before[i] == #[trigger] v[i] by {}
        if all_hold(v, a, env_of(vars)) {
            assert forall|i: int| 0 <= i < v.len() implies (t.truth)(
                predicate_text(#[trigger] v[i]),
                vars,
            ) by {
                if i < before.len() {
                    assert((t.truth)(predicate_text(before[i]), vars));
                }
            }
        }
        if forall|i: int| 0 <= i < v.len() ==> (t.truth)(predicate_text(#[trigger] v[i]), vars) {
            assert forall|i: int| 0 <= i < before.len() implies (t.truth)(
                predicate_text(#[trigger] before[i]),
                vars,
            ) by {
                assert(before[i] == v[i]);
            }
            assert((t.truth)(predicate_text(last), vars));
        }
        if some_holds(before, a, env_of(vars)) {
            let i = choose|i: int|
                0 <= i < before.len() && (t.truth)(predicate_text(#[trigger] before[i]), vars);
            assert((t.truth)(predicate_text(v[i]), vars));
        }
        if exists|i: int| 0 <= i < v.len() && (t.truth)(predicate_text(#[trigger] v[i]), vars) {
            let i = choose|i: int|
                0 <= i < v.len() && (t.truth)(predicate_text(#[trigger] v[i]), vars);
            if i < before.len() {
                assert((t.truth)(predicate_text(before[i]), vars));
            }
        }
    }
}

/// The C text of a condition, read as C reads it, is true exactly where the condition holds.
pub proof fn a_condition_keeps_its_truth(
    p: PredicateModel,
    t: Texts,
    a: Arithmetic,
    vars: Map<Seq<char>, int>,
)
    requires
        condition_read(p, t, a),
    ensures
        (t.truth)(predicate_text(p), vars) == holds(p, a, env_of(vars)),
    decreases p, 0nat,
{
    match p {
        PredicateModel::Compare { op, lhs, rhs } => {
            lemma_index_read(lhs, t, a, vars);
            lemma_index_read(rhs, t, a, vars);
            let l = index_text(lhs, 0);
            let r = index_text(rhs, 0);
            assert(predicate_text(p) == l + " "@ + symbol(op) + " "@ + r);
        },
        PredicateModel::And(v) => {
            lemma_conditions(v, t, a, vars);
            assert(predicate_texts(v) =~= in_parentheses(v));
            assert(predicate_text(p) == joined(in_parentheses(v), " && "@));
        },
        PredicateModel::Or(v) => {
            lemma_conditions(v, t, a, vars);
            assert(predicate_texts(v) =~= in_parentheses(v));
            assert(predicate_text(p) == joined(in_parentheses(v), " || "@));
        },
        PredicateModel::Not(q) => {
            a_condition_keeps_its_truth(*q, t, a, vars);
            assert(predicate_text(p) == "!("@ + predicate_text(*q) + ")"@);
        },
        PredicateModel::Constant(b) => {
            assert((t.truth)("1"@, vars) == true);
            assert((t.truth)("0"@, vars) == false);
        },
    }
}

/// A run of a program: where it leaves its iterators, and the instances it runs, in order, each as
/// its statement and the values of its indices.
pub struct Trace {
    pub vars: Map<Seq<char>, int>,
    pub instances: Seq<(nat, Seq<int>)>,
}

pub open spec fn index_values(
    v: Seq<IndexModel>,
    a: Arithmetic,
    vars: Map<Seq<char>, int>,
) -> Seq<int> {
    v.map_values(|m: IndexModel| index_value(m, a, env_of(vars)))
}

/// What a program runs. `None` is a run in which some loop runs more often than `limit` allows.
pub open spec fn traced(
    n: NodeModel,
    a: Arithmetic,
    limit: nat,
    vars: Map<Seq<char>, int>,
) -> Option<Trace>
    decreases n, 0nat,
{
    match n {
        NodeModel::Loop { iterator, init, condition, step, body } => traced_loop(
            iterator,
            condition,
            step,
            *body,
            a,
            limit,
            limit,
            vars.insert(iterator, index_value(init, a, env_of(vars))),
        ),
        NodeModel::If { condition, then_body, else_body } => if holds(condition, a, env_of(vars)) {
            traced(*then_body, a, limit, vars)
        } else {
            match else_body {
                Some(b) => traced(*b, a, limit, vars),
                None => Some(Trace { vars, instances: Seq::empty() }),
            }
        },
        NodeModel::Sequence(v) => traced_all(v, a, limit, vars),
        NodeModel::Invoke { statement, indices } => Some(
            Trace { vars, instances: seq![(statement, index_values(indices, a, vars))] },
        ),
    }
}

/// What programs run one after another.
pub open spec fn traced_all(
    v: Seq<NodeModel>,
    a: Arithmetic,
    limit: nat,
    vars: Map<Seq<char>, int>,
) -> Option<Trace>
    decreases v, 0nat,
{
    if v.len() == 0 {
        Some(Trace { vars, instances: Seq::empty() })
    } else {
        match traced_all(v.drop_last(), a, limit, vars) {
            None => None,
            Some(first) => match traced(v.last(), a, limit, first.vars) {
                None => None,
                Some(second) => Some(
                    Trace { vars: second.vars, instances: first.instances + second.instances },
                ),
            },
        }
    }
}

/// What the body of a loop runs, as long as the condition of the loop holds.
pub open spec fn traced_loop(
    iterator: Seq<char>,
    condition: PredicateModel,
    step: IndexModel,
    body: NodeModel,
    a: Arithmetic,
    limit: nat,
    n: nat,
    vars: Map<Seq<char>, int>,
) -> Option<Trace>
    decreases body, n + 1,
{
    if !holds(condition, a, env_of(vars)) {
        Some(Trace { vars, instances: Seq::empty() })
    } else if n == 0 {
        None
    } else {
        match traced(body, a, limit, vars) {
            None => None,
            Some(first) => {
                let next = first.vars.insert(
                    iterator,
                    first.vars[iterator] + index_value(step, a, env_of(first.vars)),
                );
                match traced_loop(
                    iterator,
                    condition,
                    step,
                    body,
                    a,
                    limit,
                    (n - 1) as nat,
                    next,
                ) {
                    None => None,
                    Some(rest) => Some(
                        Trace { vars: rest.vars, instances: first.instances + rest.instances },
                    ),
                }
            },
        }
    }
}

/// The names that an instance of a statement gives to its indices.
pub open spec fn names_of(s: StatementModel) -> Seq<Seq<char>> {
    match s.kind {
        KindModel::Ordinary { equations } => picked(
            views(equations[0].1.index_names@),
            s.ndims as nat,
            "i"@,
        ),
        KindModel::ReduceInit { reduce_local, operator, body_context } => picked(
            body_context,
            s.ndims as nat,
            "i"@,
        ),
        KindModel::ReduceStep { reduce_local, operator, body, body_context, projection } => picked(
            body_context,
            s.ndims as nat,
            "i"@,
        ),
        KindModel::OperationCall(call) => Seq::empty(),
    }
}

/// The array cell that an instance of a statement writes: that of its variable at its indices. A
/// reduction writes the cell of its result, both when it starts and at every step.
pub open spec fn written_cell(env: Env, s: StatementModel) -> Seq<char> {
    match s.kind {
        KindModel::Ordinary { equations } => cell_text(s.name, names_of(s)),
        KindModel::ReduceInit { reduce_local, operator, body_context } => cell_text(
            reduce_local,
            names_of(s),
        ),
        KindModel::ReduceStep { reduce_local, operator, body, body_context, projection } =>
            cell_text(reduce_local, names_of(s).take(ambient_dims(env, reduce_local, s.ndims) as int)),
        KindModel::OperationCall(call) => Seq::empty(),
    }
}

/// The text is what an instance of a statement writes: the value of its equations; where a reduction
/// starts, the number it starts from; at a step, the result so far with one more value of the body.
pub open spec fn is_written(env: Env, s: StatementModel, text: Seq<char>) -> bool {
    match s.kind {
        KindModel::Ordinary { equations } => exists|st: Emitted| #[trigger]
            piecewise_value(env, st, names_of(s), equations).0 == Ok::<Seq<char>, crate::error::Failure>(
                text,
            ),
        KindModel::ReduceInit { reduce_local, operator, body_context } => neutral(operator) == Some(
            text,
        ),
        KindModel::ReduceStep { reduce_local, operator, body, body_context, projection } => exists|
            st: Emitted,
        |
            (#[trigger] value(env, st, names_of(s), body)).0 matches Ok(v) && combined(
                operator,
                written_cell(env, s),
                v,
            ) == Some(text),
        KindModel::OperationCall(call) => false,
    }
}

/// The event is the run of an instance: its cell is assigned what it writes, while its indices have
/// the given values.
pub open spec fn is_instance(env: Env, s: StatementModel, indices: Seq<int>, e: Event) -> bool {
    e matches Event::Assigned { target, value, at } && {
        &&& target == written_cell(env, s)
        &&& is_written(env, s, value)
        &&& forall|i: int|
            0 <= i < names_of(s).len() && i < indices.len() ==> at[#[trigger] names_of(s)[i]]
                == indices[i]
    }
}

/// The events are the runs of the instances, one by one.
pub open spec fn same_run(
    env: Env,
    statements: Seq<StatementModel>,
    instances: Seq<(nat, Seq<int>)>,
    events: Seq<Event>,
) -> bool {
    &&& events.len() == instances.len()
    &&& forall|k: int|
        0 <= k < instances.len() ==> (#[trigger] instances[k]).0 < statements.len() && is_instance(
            env,
            statements[instances[k].0 as int],
            instances[k].1,
            events[k],
        )
}

/// The expression mentions a variable.
pub open spec fn mentions(m: IndexModel, name: Seq<char>) -> bool
    decreases m,
{
    match m {
        IndexModel::Constant(_) => false,
        IndexModel::Variable(s) => s == name,
        IndexModel::Add(l, r) | IndexModel::Sub(l, r) | IndexModel::Mul(l, r)
        | IndexModel::Div(l, r) | IndexModel::FloorDiv(l, r) | IndexModel::CeilDiv(l, r)
        | IndexModel::Mod(l, r) => mentions(*l, name) || mentions(*r, name),
        IndexModel::Min(v) | IndexModel::Max(v) => some_mentions(v, name),
    }
}

pub open spec fn some_mentions(v: Seq<IndexModel>, name: Seq<char>) -> bool
    decreases v,
{
    v.len() > 0 && (some_mentions(v.drop_last(), name) || mentions(v.last(), name))
}

proof fn lemma_unmentioned_all(
    v: Seq<IndexModel>,
    a: Arithmetic,
    vars: Map<Seq<char>, int>,
    other: Map<Seq<char>, int>,
)
    requires
        forall|name: Seq<char>| some_mentions(v, name) ==> #[trigger] vars[name] == other[name],
    ensures
        smallest(v, a, env_of(vars)) == smallest(v, a, env_of(other)),
        largest(v, a, env_of(vars)) == largest(v, a, env_of(other)),
    decreases v, 0nat,
{
    if v.len() > 0 {
        lemma_unmentioned_all(v.drop_last(), a, vars, other);
        lemma_unmentioned(v.last(), a, vars, other);
        if v.len() == 1 {
            assert(v[0] == v.last());
        }
    }
}

/// The value of an index expression depends on the variables that it mentions only.
pub proof fn lemma_unmentioned(
    m: IndexModel,
    a: Arithmetic,
    vars: Map<Seq<char>, int>,
    other: Map<Seq<char>, int>,
)
    requires
        forall|name: Seq<char>| mentions(m, name) ==> #[trigger] vars[name] == other[name],
    ensures
        index_value(m, a, env_of(vars)) == index_value(m, a, env_of(other)),
    decreases m, 0nat,
{
    match m {
        IndexModel::Constant(_) => {},
        IndexModel::Variable(s) => {
            assert(mentions(m, s));
            assert(vars[s] == other[s]);
        },
        IndexModel::Add(l, r) | IndexModel::Sub(l, r) | IndexModel::Mul(l, r)
        | IndexModel::Div(l, r) | IndexModel::FloorDiv(l, r) | IndexModel::CeilDiv(l, r)
        | IndexModel::Mod(l, r) => {
            lemma_unmentioned(*l, a, vars, other);
            lemma_unmentioned(*r, a, vars, other);
        },
        IndexModel::Min(v) | IndexModel::Max(v) => {
            lemma_unmentioned_all(v, a, vars, other);
        },
    }
}

/// The names of the indices of an instance are different, and none of them is mentioned where the
/// values of the indices are computed.
pub open spec fn names_apart(names: Seq<Seq<char>>, indices: Seq<IndexModel>) -> bool {
    &&& forall|i: int, j: int| 0 <= i < j < names.len() ==> #[trigger] names[i] != #[trigger] names[j]
    &&& forall|i: int, j: int|
        0 <= i < names.len() && 0 <= j < indices.len() ==> !mentions(
            #[trigger] indices[j],
            #[trigger] names[i],
        )
}

/// C reads every text of a program, and the names of its instances do not get in the way.
pub open spec fn program_read(
    n: NodeModel,
    statements: Seq<StatementModel>,
    t: Texts,
    a: Arithmetic,
) -> bool
    decreases n,
{
    match n {
        NodeModel::Loop { iterator, init, condition, step, body } => {
            &&& index_read(init, t, a)
            &&& index_read(step, t, a)
            &&& condition_read(condition, t, a)
            &&& program_read(*body, statements, t, a)
        },
        NodeModel::If { condition, then_body, else_body } => {
            &&& condition_read(condition, t, a)
            &&& program_read(*then_body, statements, t, a)
            &&& else_body matches Some(b) ==> program_read(*b, statements, t, a)
        },
        NodeModel::Sequence(v) => programs_read(v, statements, t, a),
        NodeModel::Invoke { statement, indices } => {
            &&& forall|j: int| 0 <= j < indices.len() ==> index_read(#[trigger] indices[j], t, a)
            &&& statement < statements.len() ==> names_apart(
                names_of(statements[statement as int]),
                indices,
            )
        },
    }
}

pub open spec fn programs_read(
    v: Seq<NodeModel>,
    statements: Seq<StatementModel>,
    t: Texts,
    a: Arithmetic,
) -> bool
    decreases v,
{
    v.len() == 0 || (programs_read(v.drop_last(), statements, t, a) && program_read(
        v.last(),
        statements,
        t,
        a,
    ))
}

/// The variables once the first `n` indices have their values.
pub open spec fn bound(
    names: Seq<Seq<char>>,
    values: Seq<int>,
    vars: Map<Seq<char>, int>,
    n: nat,
) -> Map<Seq<char>, int>
    decreases n,
{
    if n == 0 {
        vars
    } else {
        bound(names, values, vars, (n - 1) as nat).insert(names[n - 1], values[n - 1])
    }
}

proof fn lemma_bound(
    names: Seq<Seq<char>>,
    values: Seq<int>,
    vars: Map<Seq<char>, int>,
    n: nat,
)
    requires
        n <= names.len(),
        n <= values.len(),
        forall|i: int, j: int|
            0 <= i < j < names.len() ==> #[trigger] names[i] != #[trigger] names[j],
    ensures
        forall|i: int|
            0 <= i < n ==> bound(names, values, vars, n)[#[trigger] names[i]] == values[i],
        forall|name: Seq<char>|
            (forall|i: int| 0 <= i < n ==> #[trigger] names[i] != name) ==> (
            #[trigger] bound(names, values, vars, n)[name] == vars[name] && (bound(
                names,
                values,
                vars,
                n,
            ).dom().contains(name) <==> vars.dom().contains(name))),
    decreases n,
{
    if n > 0 {
        lemma_bound(names, values, vars, (n - 1) as nat);
        let before = bound(names, values, vars, (n - 1) as nat);
        let now = bound(names, values, vars, n);
        assert forall|i: int| 0 <= i < n implies now[#[trigger] names[i]] == values[i] by {
            if i < n - 1 {
                assert(names[i] != names[n - 1]);
                assert(before[names[i]] == values[i]);
            }
        }
        assert forall|name: Seq<char>|
            (forall|i: int| 0 <= i < n ==> #[trigger] names[i] != name) implies (
        #[trigger] now[name] == vars[name] && (now.dom().contains(name) <==> vars.dom().contains(
            name,
        ))) by {
            assert(names[n - 1] != name);
            assert(before[name] == vars[name]);
        }
    }
}

proof fn lemma_bindings(
    names: Seq<Seq<char>>,
    indices: Seq<IndexModel>,
    t: Texts,
    a: Arithmetic,
    limit: nat,
    vars: Map<Seq<char>, int>,
    n: nat,
)
    requires
        n <= names.len(),
        n <= indices.len(),
        names_apart(names, indices),
        forall|j: int| 0 <= j < indices.len() ==> index_read(#[trigger] indices[j], t, a),
    ensures
        run_all(bindings(names, index_texts(indices)).take(n as int), t, limit, vars) == Some(
            still(bound(names, index_values(indices, a, vars), vars, n)),
        ),
    decreases n,
{
    let all = bindings(names, index_texts(indices));
    let values = index_values(indices, a, vars);
    if n == 0 {
        assert(all.take(0) =~= Seq::<StmtModel>::empty());
    } else {
        lemma_bindings(names, indices, t, a, limit, vars, (n - 1) as nat);
        let part = all.take(n as int);
        assert(part.drop_last() =~= all.take(n - 1));
        let before = bound(names, values, vars, (n - 1) as nat);
        let m = indices[n - 1];
        lemma_bound(names, values, vars, (n - 1) as nat);
        lemma_index_read(m, t, a, before);
        assert forall|name: Seq<char>| mentions(m, name) implies #[trigger] before[name]
            == vars[name] by {
            assert forall|i: int| 0 <= i < n - 1 implies #[trigger] names[i] != name by {
                assert(!mentions(indices[n - 1], names[i]));
            }
        }
        lemma_unmentioned(m, a, before, vars);
        let own = StmtModel::Decl {
            ty: CType::Long,
            name: names[n - 1],
            init: Some(index_text(m, 0)),
        };
        assert(part.last() == own);
        assert(values[n - 1] == index_value(m, a, env_of(vars)));
        assert(run_stmt(own, t, limit, before) == Some(still(bound(names, values, vars, n))));
        assert(Seq::<Event>::empty() + Seq::<Event>::empty() =~= Seq::<Event>::empty());
    }
}

/// The block that is emitted for an instance runs it.
pub proof fn an_instance_is_run_with_its_indices(
    env: Env,
    st: Emitted,
    s: StatementModel,
    indices: Seq<IndexModel>,
    t: Texts,
    a: Arithmetic,
    limit: nat,
    vars: Map<Seq<char>, int>,
)
    requires
        instance(env, st, s, index_texts(indices)).0 is Ok,
        names_apart(names_of(s), indices),
        forall|j: int| 0 <= j < indices.len() ==> index_read(#[trigger] indices[j], t, a),
    ensures
        ({
            let block = StmtModel::Block(instance(env, st, s, index_texts(indices)).0->Ok_0);
            run_stmt(block, t, limit, vars) matches Some(r) && {
                &&& r.vars == vars
                &&& !r.ended
                &&& r.events.len() == 1
                &&& is_instance(env, s, index_values(indices, a, vars), r.events[0])
            }
        }),
{
    let names = names_of(s);
    let body = instance(env, st, s, index_texts(indices)).0->Ok_0;
    let first = bindings(names, index_texts(indices));
    let last = body.last();
    let n = first.len();
    let values = index_values(indices, a, vars);
    assert(body == first.push(last) && last is Assign);
    assert(body.drop_last() =~= first);
    lemma_bindings(names, indices, t, a, limit, vars, n);
    assert(first.take(n as int) =~= first);
    let inside = bound(names, values, vars, n);
    lemma_bound(names, values, vars, n);
    let e = Event::Assigned { target: last->Assign_target, value: last->Assign_value, at: inside };
    assert(run_stmt(last, t, limit, inside) == Some(after_event(inside, e)));
    assert(Seq::<Event>::empty() + seq![e] =~= seq![e]);
    assert(run_all(body, t, limit, vars) == Some(
        Run { vars: inside, events: seq![e], ended: false },
    ));
    assert(left_block(vars, inside, body) =~= vars) by {
        assert forall|k: Seq<char>| !declares(body, k) implies (inside.dom().contains(k)
            <==> vars.dom().contains(k)) && #[trigger] inside[k] == vars[k] by {
            assert forall|i: int| 0 <= i < n implies #[trigger] names[i] != k by {
                if names[i] == k {
                    assert(body[i] == first[i]);
                    assert(is_declaration(body[i], k));
                    assert(declares(body, k));
                }
            }
            assert(bound(names, values, vars, n)[k] == vars[k]);
        }
        let left = left_block(vars, inside, body);
        assert forall|k: Seq<char>| left.dom().contains(k) <==> #[trigger] vars.dom().contains(
            k,
        ) by {
            if !declares(body, k) {
                assert(inside[k] == vars[k]);
            }
        }
        assert forall|k: Seq<char>| #[trigger] left.dom().contains(k) implies left[k] == vars[k] by {
            if !declares(body, k) {
                assert(inside[k] == vars[k]);
            }
        }
    }
    assert(is_written(env, s, last->Assign_value)) by {
        match s.kind {
            KindModel::Ordinary { equations } => {
                assert(piecewise_value(env, st, names, equations).0 is Ok);
            },
            KindModel::ReduceStep { reduce_local, operator, body, body_context, projection } => {
                assert(value(env, st, names, body).0 is Ok);
            },
            _ => {},
        }
    }
    assert(is_instance(env, s, values, e));
}

/// The run of the emitted statements is that of the program: neither ends within the limit, or both
/// leave the same iterators, and the events of the one are the instances of the other, in order.
pub open spec fn runs_alike(
    env: Env,
    statements: Seq<StatementModel>,
    program: Option<Trace>,
    emitted: Option<Run>,
) -> bool {
    match program {
        None => emitted is None,
        Some(p) => emitted matches Some(r) && {
            &&& r.vars == p.vars
            &&& !r.ended
            &&& same_run(env, statements, p.instances, r.events)
        },
    }
}

proof fn lemma_same_run_sum(
    env: Env,
    statements: Seq<StatementModel>,
    a: Seq<(nat, Seq<int>)>,
    x: Seq<Event>,
    b: Seq<(nat, Seq<int>)>,
    y: Seq<Event>,
)
    requires
        same_run(env, statements, a, x),
        same_run(env, statements, b, y),
    ensures
        same_run(env, statements, a + b, x + y),
{
    assert forall|k: int| 0 <= k < (a + b).len() implies (#[trigger] (a + b)[k]).0
        < statements.len() && is_instance(
        env,
        statements[(a + b)[k].0 as int],
        (a + b)[k].1,
        (x + y)[k],
    ) by {
        if k < a.len() {
            assert((a + b)[k] == a[k]);
        } else {
            assert((a + b)[k] == b[k - a.len()]);
        }
    }
}

proof fn lemma_walked_loop(
    env: Env,
    st: Emitted,
    iterators: Seq<Seq<char>>,
    iterator: Seq<char>,
    condition: PredicateModel,
    step: IndexModel,
    body: NodeModel,
    statements: Seq<StatementModel>,
    t: Texts,
    a: Arithmetic,
    limit: nat,
    n: nat,
    vars: Map<Seq<char>, int>,
)
    requires
        walked(env, st, iterators, body, statements).stmts is Ok,
        program_read(body, statements, t, a),
        condition_read(condition, t, a),
        index_read(step, t, a),
    ensures
        runs_alike(
            env,
            statements,
            traced_loop(iterator, condition, step, body, a, limit, n, vars),
            run_loop(
                iterator,
                predicate_text(condition),
                index_text(step, 0),
                walked(env, st, iterators, body, statements).stmts->Ok_0,
                t,
                limit,
                n,
                vars,
            ),
        ),
    decreases body, n + 1,
{
    let stmts = walked(env, st, iterators, body, statements).stmts->Ok_0;
    a_condition_keeps_its_truth(condition, t, a, vars);
    if holds(condition, a, env_of(vars)) && n > 0 {
        the_emitted_loops_run_the_program(
            env,
            st,
            iterators,
            body,
            statements,
            t,
            a,
            limit,
            vars,
        );
        if let Some(first) = traced(body, a, limit, vars) {
            let r = run_all(stmts, t, limit, vars)->Some_0;
            lemma_index_read(step, t, a, first.vars);
            let next = first.vars.insert(
                iterator,
                first.vars[iterator] + index_value(step, a, env_of(first.vars)),
            );
            lemma_walked_loop(
                env,
                st,
                iterators,
                iterator,
                condition,
                step,
                body,
                statements,
                t,
                a,
                limit,
                (n - 1) as nat,
                next,
            );
            if let Some(rest) = traced_loop(
                iterator,
                condition,
                step,
                body,
                a,
                limit,
                (n - 1) as nat,
                next,
            ) {
                let q = run_loop(
                    iterator,
                    predicate_text(condition),
                    index_text(step, 0),
                    stmts,
                    t,
                    limit,
                    (n - 1) as nat,
                    next,
                )->Some_0;
                lemma_same_run_sum(
                    env,
                    statements,
                    first.instances,
                    r.events,
                    rest.instances,
                    q.events,
                );
            }
        }
    }
}

proof fn lemma_walked_all(
    env: Env,
    st: Emitted,
    iterators: Seq<Seq<char>>,
    v: Seq<NodeModel>,
    statements: Seq<StatementModel>,
    t: Texts,
    a: Arithmetic,
    limit: nat,
    vars: Map<Seq<char>, int>,
)
    requires
        walked_all(env, st, iterators, v, statements).stmts is Ok,
        programs_read(v, statements, t, a),
    ensures
        runs_alike(
            env,
            statements,
            traced_all(v, a, limit, vars),
            run_all(walked_all(env, st, iterators, v, statements).stmts->Ok_0, t, limit, vars),
        ),
    decreases v, 0nat,
{
    if v.len() > 0 {
        let before = walked_all(env, st, iterators, v.drop_last(), statements);
        lemma_walked_all(env, st, iterators, v.drop_last(), statements, t, a, limit, vars);
        let last = walked(env, before.emitted, before.iterators, v.last(), statements);
        let stmts = before.stmts->Ok_0;
        let more = last.stmts->Ok_0;
        lemma_run_sum(stmts, more, t, limit, vars);
        if let Some(first) = traced_all(v.drop_last(), a, limit, vars) {
            let r = run_all(stmts, t, limit, vars)->Some_0;
            the_emitted_loops_run_the_program(
                env,
                before.emitted,
                before.iterators,
                v.last(),
                statements,
                t,
                a,
                limit,
                first.vars,
            );
            if let Some(second) = traced(v.last(), a, limit, first.vars) {
                let q = run_all(more, t, limit, first.vars)->Some_0;
                lemma_same_run_sum(
                    env,
                    statements,
                    first.instances,
                    r.events,
                    second.instances,
                    q.events,
                );
            }
        }
    }
}

/// The statements that are emitted for a scheduled program run its instances: the same ones, in the
/// same order, each assigning the cell of its statement while the indices have the values that the
/// program gives them. Loops run while their conditions hold, and of a guard the part runs that its
/// condition picks.
pub proof fn the_emitted_loops_run_the_program(
    env: Env,
    st: Emitted,
    iterators: Seq<Seq<char>>,
    n: NodeModel,
    statements: Seq<StatementModel>,
    t: Texts,
    a: Arithmetic,
    limit: nat,
    vars: Map<Seq<char>, int>,
)
    requires
        walked(env, st, iterators, n, statements).stmts is Ok,
        program_read(n, statements, t, a),
    ensures
        runs_alike(
            env,
            statements,
            traced(n, a, limit, vars),
            run_all(walked(env, st, iterators, n, statements).stmts->Ok_0, t, limit, vars),
        ),
    decreases n, 0nat,
{
    let stmts = walked(env, st, iterators, n, statements).stmts->Ok_0;
    match n {
        NodeModel::Loop { iterator, init, condition, step, body } => {
            let inner = crate::text::with_name(iterators, iterator);
            let w = walked(env, st, inner, *body, statements);
            let own = StmtModel::For {
                iterator,
                init: index_text(init, 0),
                cond: predicate_text(condition),
                inc: index_text(step, 0),
                body: w.stmts->Ok_0,
            };
            assert(stmts == seq![own]);
            lemma_run_one(own, t, limit, vars);
            lemma_index_read(init, t, a, vars);
            lemma_walked_loop(
                env,
                st,
                inner,
                iterator,
                condition,
                step,
                *body,
                statements,
                t,
                a,
                limit,
                limit,
                vars.insert(iterator, index_value(init, a, env_of(vars))),
            );
        },
        NodeModel::If { condition, then_body, else_body } => {
            let first = walked(env, st, iterators, *then_body, statements);
            let own = stmts[0];
            assert(stmts == seq![own]);
            lemma_run_one(own, t, limit, vars);
            a_condition_keeps_its_truth(condition, t, a, vars);
            the_emitted_loops_run_the_program(
                env,
                st,
                iterators,
                *then_body,
                statements,
                t,
                a,
                limit,
                vars,
            );
            if let Some(b) = else_body {
                the_emitted_loops_run_the_program(
                    env,
                    first.emitted,
                    first.iterators,
                    *b,
                    statements,
                    t,
                    a,
                    limit,
                    vars,
                );
            }
        },
        NodeModel::Sequence(v) => {
            lemma_walked_all(env, st, iterators, v, statements, t, a, limit, vars);
        },
        NodeModel::Invoke { statement, indices } => {
            let s = statements[statement as int];
            let block = StmtModel::Block(instance(env, st, s, index_texts(indices)).0->Ok_0);
            assert(stmts == seq![block]);
            lemma_run_one(block, t, limit, vars);
            an_instance_is_run_with_its_indices(env, st, s, indices, t, a, limit, vars);
        },
    }
}

} // verus!
