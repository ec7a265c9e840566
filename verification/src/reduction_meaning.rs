//! What the function of a reduction computes: running it folds the values of the body, at the points
//! that its loops visit, from the identity of the operator.
use crate::emission::{
    a_reduction_starts_from_the_identity, literal_value, step_of, step_text, Number, Step,
};
use crate::execution::{
    lemma_run_one, lemma_run_sum, run_all, run_loop, run_stmt, still, Event, Run, Texts,
};
use crate::expr::{value, Emitted, Env};
use crate::ir::{Expr, Operator, ReduceDomain};
use crate::simplec::{CType, StmtModel};
use crate::writec::{
    combined, fixed_value, fixed_values, index_decls, nested, neutral, new_index_names,
    primed_names, reduce_function, reduce_headers, reduce_value, Header,
};
use vstd::prelude::*;

verus! {

/// Where loops, the first of them outermost, leave the integer variables, and the points at which
/// what is inside them runs, in order.
pub struct Scan {
    pub vars: Map<Seq<char>, int>,
    pub visits: Seq<Map<Seq<char>, int>>,
}

/// The points that loops visit, the first loop outermost.
pub open spec fn scanned(
    loops: Seq<Header>,
    t: Texts,
    limit: nat,
    vars: Map<Seq<char>, int>,
) -> Option<Scan>
    decreases loops.len(), limit + 2,
{
    if loops.len() == 0 {
        Some(Scan { vars, visits: seq![vars] })
    } else {
        scanned_on(
            loops,
            t,
            limit,
            limit,
            vars.insert(loops[0].iterator, (t.number)(loops[0].init, vars)),
        )
    }
}

/// The points that loops visit from where the outermost one stands.
pub open spec fn scanned_on(
    loops: Seq<Header>,
    t: Texts,
    limit: nat,
    n: nat,
    vars: Map<Seq<char>, int>,
) -> Option<Scan>
    decreases loops.len(), n + 1,
{
    if loops.len() == 0 || !(t.truth)(loops[0].cond, vars) {
        Some(Scan { vars, visits: Seq::empty() })
    } else if n == 0 {
        None
    } else {
        match scanned(loops.drop_first(), t, limit, vars) {
            None => None,
            Some(inner) => {
                let next = inner.vars.insert(
                    loops[0].iterator,
                    inner.vars[loops[0].iterator] + (t.number)(loops[0].inc, inner.vars),
                );
                match scanned_on(loops, t, limit, (n - 1) as nat, next) {
                    None => None,
                    Some(rest) => Some(
                        Scan { vars: rest.vars, visits: inner.visits + rest.visits },
                    ),
                }
            },
        }
    }
}

/// The loop with a header.
pub open spec fn loop_over(h: Header, body: Seq<StmtModel>) -> StmtModel {
    StmtModel::For { iterator: h.iterator, init: h.init, cond: h.cond, inc: h.inc, body }
}

proof fn lemma_nested(headers: Seq<Header>, inner: Seq<StmtModel>)
    requires
        headers.len() > 0,
    ensures
        nested(headers, inner) == seq![
            loop_over(headers[0], nested(headers.drop_first(), inner)),
        ],
    decreases headers.len(),
{
    let h = headers.last();
    let body = seq![loop_over(h, inner)];
    if headers.len() == 1 {
        assert(headers.drop_last() =~= Seq::<Header>::empty());
        assert(headers.drop_first() =~= Seq::<Header>::empty());
        assert(nested(headers.drop_last(), body) == body);
    } else {
        lemma_nested(headers.drop_last(), body);
        assert(headers.drop_last()[0] == headers[0]);
        assert(headers.drop_last().drop_first() =~= headers.drop_first().drop_last());
        assert(headers.drop_first().last() == h);
        assert(nested(headers.drop_first(), inner) == nested(
            headers.drop_first().drop_last(),
            body,
        ));
    }
}

/// What an assignment or a call does at a point.
pub open spec fn done_at(s: StmtModel, at: Map<Seq<char>, int>) -> Event {
    match s {
        StmtModel::Assign { target, value } => Event::Assigned { target, value, at },
        StmtModel::Expr(text) => Event::Called { text, at },
        _ => Event::Line(Seq::empty()),
    }
}

/// What an assignment or a call does at each of the points.
pub open spec fn done_at_all(s: StmtModel, visits: Seq<Map<Seq<char>, int>>) -> Seq<Event> {
    visits.map_values(|at: Map<Seq<char>, int>| done_at(s, at))
}

pub open spec fn assigned_at(
    target: Seq<char>,
    value: Seq<char>,
    visits: Seq<Map<Seq<char>, int>>,
) -> Seq<Event> {
    done_at_all(StmtModel::Assign { target, value }, visits)
}

proof fn lemma_done_sum(s: StmtModel, a: Seq<Map<Seq<char>, int>>, b: Seq<Map<Seq<char>, int>>)
    ensures
        done_at_all(s, a + b) == done_at_all(s, a) + done_at_all(s, b),
{
    assert(done_at_all(s, a + b) =~= done_at_all(s, a) + done_at_all(s, b));
}

/// Nested loops around an assignment or a call make it at every point that the loops visit, in order.
pub proof fn nested_loops_run_at_every_point(
    headers: Seq<Header>,
    s: StmtModel,
    t: Texts,
    limit: nat,
    vars: Map<Seq<char>, int>,
)
    requires
        s is Assign || s is Expr,
    ensures
        run_all(nested(headers, seq![s]), t, limit, vars) == match scanned(
            headers,
            t,
            limit,
            vars,
        ) {
            None => None,
            Some(w) => Some(
                Run { vars: w.vars, events: done_at_all(s, w.visits), ended: false },
            ),
        },
    decreases headers.len(), limit + 2,
{
    let inner = seq![s];
    if headers.len() == 0 {
        lemma_run_one(s, t, limit, vars);
        assert(done_at_all(s, seq![vars]) =~= seq![done_at(s, vars)]);
    } else {
        lemma_nested(headers, inner);
        let h = headers[0];
        let body = nested(headers.drop_first(), inner);
        lemma_run_one(loop_over(h, body), t, limit, vars);
        lemma_loop(
            headers,
            s,
            t,
            limit,
            limit,
            vars.insert(h.iterator, (t.number)(h.init, vars)),
        );
    }
}

proof fn lemma_loop(
    headers: Seq<Header>,
    s: StmtModel,
    t: Texts,
    limit: nat,
    n: nat,
    vars: Map<Seq<char>, int>,
)
    requires
        s is Assign || s is Expr,
        headers.len() > 0,
    ensures
        run_loop(
            headers[0].iterator,
            headers[0].cond,
            headers[0].inc,
            nested(headers.drop_first(), seq![s]),
            t,
            limit,
            n,
            vars,
        ) == match scanned_on(headers, t, limit, n, vars) {
            None => None,
            Some(w) => Some(
                Run { vars: w.vars, events: done_at_all(s, w.visits), ended: false },
            ),
        },
    decreases headers.len(), n + 1,
{
    let h = headers[0];
    if !(t.truth)(h.cond, vars) {
        assert(done_at_all(s, Seq::empty()) =~= Seq::<Event>::empty());
    } else if n > 0 {
        nested_loops_run_at_every_point(headers.drop_first(), s, t, limit, vars);
        if let Some(first) = scanned(headers.drop_first(), t, limit, vars) {
            let next = first.vars.insert(
                h.iterator,
                first.vars[h.iterator] + (t.number)(h.inc, first.vars),
            );
            lemma_loop(headers, s, t, limit, (n - 1) as nat, next);
            if let Some(rest) = scanned_on(headers, t, limit, (n - 1) as nat, next) {
                lemma_done_sum(s, first.visits, rest.visits);
            }
        }
    }
}

/// The integer variables once the new indices are declared: one that has a fixed value has it, the
/// others have none yet.
pub open spec fn with_indices(
    names: Seq<Seq<char>>,
    fixed: Seq<(Seq<char>, Seq<char>)>,
    t: Texts,
    vars: Map<Seq<char>, int>,
) -> Map<Seq<char>, int>
    decreases names.len(),
{
    if names.len() == 0 {
        vars
    } else {
        let before = with_indices(names.drop_last(), fixed, t, vars);
        match fixed_value(fixed, names.last()) {
            Some(text) => before.insert(names.last(), (t.number)(text, before)),
            None => before.remove(names.last()),
        }
    }
}

proof fn lemma_index_decls(
    names: Seq<Seq<char>>,
    fixed: Seq<(Seq<char>, Seq<char>)>,
    t: Texts,
    limit: nat,
    vars: Map<Seq<char>, int>,
)
    ensures
        run_all(index_decls(names, fixed), t, limit, vars) == Some(
            still(with_indices(names, fixed, t, vars)),
        ),
    decreases names.len(),
{
    let all = index_decls(names, fixed);
    if names.len() > 0 {
        lemma_index_decls(names.drop_last(), fixed, t, limit, vars);
        assert(all.drop_last() =~= index_decls(names.drop_last(), fixed));
        let before = with_indices(names.drop_last(), fixed, t, vars);
        let own = StmtModel::Decl {
            ty: CType::Long,
            name: names.last(),
            init: fixed_value(fixed, names.last()),
        };
        assert(all.last() == own);
        assert(run_stmt(own, t, limit, before) == Some(
            still(with_indices(names, fixed, t, vars)),
        ));
        assert(Seq::<Event>::empty() + Seq::<Event>::empty() =~= Seq::<Event>::empty());
    }
}

/// A way of reading texts for a value that is no integer, given what the accumulator holds, if it
/// holds anything, and the integer variables.
pub struct Values {
    pub read: spec_fn(Seq<char>, Option<Number>, Map<Seq<char>, int>) -> Option<Number>,
}

/// What a variable holds after some events, and what has been returned.
pub struct Holding {
    pub holds: Option<Number>,
    pub returned: Option<Number>,
}

/// What the variable `name` holds after some events, if it held `start` before, and what was
/// returned.
pub open spec fn held_after(
    events: Seq<Event>,
    name: Seq<char>,
    v: Values,
    start: Option<Number>,
) -> Holding
    decreases events.len(),
{
    if events.len() == 0 {
        Holding { holds: start, returned: None }
    } else {
        let before = held_after(events.drop_last(), name, v, start);
        match events.last() {
            Event::Declared(n) => if n == name {
                Holding { holds: None, ..before }
            } else {
                before
            },
            Event::Assigned { target, value, at } => if target == name {
                Holding { holds: (v.read)(value, before.holds, at), ..before }
            } else {
                before
            },
            Event::Line(_) | Event::Called { .. } => before,
            Event::Returned { value, at } => Holding {
                returned: match value {
                    Some(text) => (v.read)(text, before.holds, at),
                    None => None,
                },
                ..before
            },
        }
    }
}

/// The values at several points, folded from the left.
pub open spec fn folded(
    visits: Seq<Map<Seq<char>, int>>,
    start: Number,
    op: spec_fn(Number, Number) -> Number,
    term: spec_fn(Map<Seq<char>, int>) -> Number,
) -> Number
    decreases visits.len(),
{
    if visits.len() == 0 {
        start
    } else {
        op(folded(visits.drop_last(), start, op, term), term(visits.last()))
    }
}

proof fn lemma_held_after_sum(
    a: Seq<Event>,
    b: Seq<Event>,
    name: Seq<char>,
    v: Values,
    start: Option<Number>,
)
    requires
        held_after(a, name, v, start).returned is None,
    ensures
        held_after(a + b, name, v, start) == held_after(
            b,
            name,
            v,
            held_after(a, name, v, start).holds,
        ),
    decreases b.len(),
{
    if b.len() == 0 {
        assert(a + b =~= a);
    } else {
        lemma_held_after_sum(a, b.drop_last(), name, v, start);
        assert((a + b).drop_last() =~= a + b.drop_last());
        assert((a + b).last() == b.last());
    }
}

proof fn lemma_folding(
    name: Seq<char>,
    step: Seq<char>,
    visits: Seq<Map<Seq<char>, int>>,
    v: Values,
    start: Number,
    op: spec_fn(Number, Number) -> Number,
    term: spec_fn(Map<Seq<char>, int>) -> Number,
)
    requires
        forall|acc: Number, at: Map<Seq<char>, int>| #[trigger]
            (v.read)(step, Some(acc), at) == Some(op(acc, term(at))),
    ensures
        held_after(assigned_at(name, step, visits), name, v, Some(start)) == (Holding {
            holds: Some(folded(visits, start, op, term)),
            returned: None,
        }),
    decreases visits.len(),
{
    let all = assigned_at(name, step, visits);
    if visits.len() > 0 {
        lemma_folding(name, step, visits.drop_last(), v, start, op, term);
        assert(all.drop_last() =~= assigned_at(name, step, visits.drop_last()));
        assert(all.last() == (Event::Assigned { target: name, value: step, at: visits.last() }));
    }
}

/// The function of a reduction returns the values of `step`, folded from that of `start` over the
/// points that its loops visit: whatever the accumulator held before does not count.
pub proof fn the_function_of_a_reduction_folds(
    name: Seq<char>,
    params: Seq<Seq<char>>,
    primed: Seq<Seq<char>>,
    new_names: Seq<Seq<char>>,
    headers: Seq<Header>,
    fixed: Seq<(Seq<char>, Seq<char>)>,
    start: Seq<char>,
    step: Seq<char>,
    t: Texts,
    limit: nat,
    vars: Map<Seq<char>, int>,
    v: Values,
    first: Number,
    op: spec_fn(Number, Number) -> Number,
    term: spec_fn(Map<Seq<char>, int>) -> Number,
)
    requires
        forall|acc: Option<Number>, at: Map<Seq<char>, int>| #[trigger]
            (v.read)(start, acc, at) == Some(first),
        forall|acc: Number, at: Map<Seq<char>, int>| #[trigger]
            (v.read)(step, Some(acc), at) == Some(op(acc, term(at))),
        forall|acc: Option<Number>, at: Map<Seq<char>, int>| #[trigger]
            (v.read)("reduceVar"@, acc, at) == acc,
    ensures
        ({
            let f = reduce_function(
                name,
                params,
                primed,
                new_names,
                headers,
                fixed,
                start,
                step,
            );
            match scanned(headers, t, limit, with_indices(new_names, fixed, t, vars)) {
                None => run_all(f.body, t, limit, vars) is None,
                Some(s) => run_all(f.body, t, limit, vars) matches Some(r) && r.ended && held_after(
                    r.events,
                    "reduceVar"@,
                    v,
                    None,
                ).returned == Some(folded(s.visits, first, op, term)),
            }
        }),
{
    let f = reduce_function(name, params, primed, new_names, headers, fixed, start, step);
    let acc = "reduceVar"@;
    let a = seq![StmtModel::Decl { ty: CType::Float, name: acc, init: None }];
    let blank = seq![StmtModel::Raw(""@)];
    let decls = index_decls(new_names, fixed);
    let set = seq![StmtModel::Assign { target: acc, value: start }];
    let loops = nested(headers, seq![StmtModel::Assign { target: acc, value: step }]);
    let back = seq![StmtModel::Return(Some(acc))];
    reveal_strlit("");
    assert(f.body =~= a + (blank + (decls + (blank + (set + (loops + back))))));
    let inside = with_indices(new_names, fixed, t, vars);
    lemma_run_one(a[0], t, limit, vars);
    lemma_run_one(blank[0], t, limit, vars);
    lemma_run_one(blank[0], t, limit, inside);
    lemma_index_decls(new_names, fixed, t, limit, vars);
    lemma_run_one(set[0], t, limit, inside);
    nested_loops_run_at_every_point(
        headers,
        StmtModel::Assign { target: acc, value: step },
        t,
        limit,
        inside,
    );
    lemma_run_sum(a, blank + (decls + (blank + (set + (loops + back)))), t, limit, vars);
    lemma_run_sum(blank, decls + (blank + (set + (loops + back))), t, limit, vars);
    lemma_run_sum(decls, blank + (set + (loops + back)), t, limit, vars);
    lemma_run_sum(blank, set + (loops + back), t, limit, inside);
    lemma_run_sum(set, loops + back, t, limit, inside);
    lemma_run_sum(loops, back, t, limit, inside);
    if let Some(s) = scanned(headers, t, limit, inside) {
        lemma_run_one(back[0], t, limit, s.vars);
        let none = Seq::<Event>::empty();
        let e0 = seq![Event::Declared(acc)];
        let e1 = seq![Event::Assigned { target: acc, value: start, at: inside }];
        let e2 = assigned_at(acc, step, s.visits);
        let e3 = seq![Event::Returned { value: Some(acc), at: s.vars }];
        let r = run_all(f.body, t, limit, vars)->Some_0;
        assert(r.events == e0 + (none + (none + (none + (e1 + (e2 + e3))))));
        assert(r.events =~= e0 + (e1 + (e2 + e3)));
        assert(e0.drop_last() =~= none);
        assert(held_after(e0.drop_last(), acc, v, None) == (Holding { holds: None, returned: None }));
        assert(e0.last() == Event::Declared(acc));
        assert(held_after(e0, acc, v, None) == (Holding { holds: None, returned: None }));
        lemma_held_after_sum(e0, e1 + (e2 + e3), acc, v, None);
        assert(e1.drop_last() =~= none);
        assert(held_after(e1.drop_last(), acc, v, None) == (Holding { holds: None, returned: None }));
        assert(held_after(e1, acc, v, None) == (Holding { holds: Some(first), returned: None }));
        lemma_held_after_sum(e1, e2 + e3, acc, v, None);
        lemma_folding(acc, step, s.visits, v, first, op, term);
        lemma_held_after_sum(e2, e3, acc, v, Some(first));
        let total = folded(s.visits, first, op, term);
        assert(e3.drop_last() =~= none);
        assert(held_after(e3.drop_last(), acc, v, Some(total)) == (Holding {
            holds: Some(total),
            returned: None,
        }));
        assert(held_after(e3, acc, v, Some(total)).returned == Some(total));
    }
}

/// The identity of an operator: folding it with a value gives the value.
pub open spec fn identity_of(step: Step) -> Number {
    match step {
        Step::Sum | Step::EitherTrue => Number::Finite(0, 1),
        Step::Product | Step::BothTrue => Number::Finite(1, 1),
        Step::Least => Number::Infinite,
        Step::Greatest => Number::MinusInfinite,
    }
}

/// The C expression that takes one more value into the accumulator `cell`.
pub open spec fn folding_text(operator: Operator, cell: Seq<char>, value: Seq<char>) -> Option<
    Seq<char>,
> {
    match operator {
        Operator::External(name) => Some(name@ + "("@ + cell + ", "@ + value + ")"@),
        Operator::Named(op) => match step_of(op@) {
            Some(step) => Some(step_text(step, cell, value)),
            None => None,
        },
    }
}

/// What a reduction over no points gives.
pub open spec fn start_of(operator: Operator) -> Option<Number> {
    match operator {
        Operator::External(_) => Some(Number::Finite(0, 1)),
        Operator::Named(op) => match step_of(op@) {
            Some(step) => Some(identity_of(step)),
            None => None,
        },
    }
}

/// The texts of the numbers that reductions start from are read as these numbers, the accumulator as
/// what it holds, and `text` as the operator applied to the accumulator and the value at the point.
pub open spec fn reads_folding(
    v: Values,
    text: Seq<char>,
    op: spec_fn(Number, Number) -> Number,
    term: spec_fn(Map<Seq<char>, int>) -> Number,
) -> bool {
    &&& forall|literal: Seq<char>, acc: Option<Number>, at: Map<Seq<char>, int>|
        literal_value(literal) is Some ==> #[trigger] (v.read)(literal, acc, at) == literal_value(
            literal,
        )
    &&& forall|acc: Option<Number>, at: Map<Seq<char>, int>| #[trigger]
        (v.read)("reduceVar"@, acc, at) == acc
    &&& forall|acc: Number, at: Map<Seq<char>, int>| #[trigger]
        (v.read)(text, Some(acc), at) == Some(op(acc, term(at)))
}

/// A reduction that is generated calls a function that returns the values of its body, folded by its
/// operator from the identity of it, over the points that the loops of its domain visit.
pub proof fn a_reduction_computes_the_fold_of_its_body(
    env: Env,
    st: Emitted,
    names: Seq<Seq<char>>,
    operator: Operator,
    hint: Seq<Seq<char>>,
    body: Expr,
    d: ReduceDomain,
    t: Texts,
    limit: nat,
    vars: Map<Seq<char>, int>,
    v: Values,
    op: spec_fn(Number, Number) -> Number,
    term: spec_fn(Map<Seq<char>, int>) -> Number,
)
    requires
        reduce_value(env, st, names, operator, hint, body, Some(d)).0 is Ok,
        value(env, st, primed_names(names) + new_index_names(names.len(), hint, d), body).0
            matches Ok(text) && (folding_text(operator, "reduceVar"@, text) matches Some(step)
            && reads_folding(v, step, op, term)),
    ensures
        ({
            let after = reduce_value(env, st, names, operator, hint, body, Some(d)).1;
            let f = after.reduce_fns.last();
            let new_names = new_index_names(names.len(), hint, d);
            let all = primed_names(names) + new_names;
            let loops = reduce_headers(d.nest->Ok_0@, all);
            let fixed = fixed_values(
                d,
                loops,
                primed_names(names),
                new_names,
                new_names.len(),
            )->Ok_0;
            match scanned(loops, t, limit, with_indices(new_names, fixed, t, vars)) {
                None => run_all(f.body, t, limit, vars) is None,
                Some(s) => run_all(f.body, t, limit, vars) matches Some(r) && r.ended && (start_of(
                    operator,
                ) matches Some(first) && held_after(r.events, "reduceVar"@, v, None).returned
                    == Some(folded(s.visits, first, op, term))),
            }
        }),
{
    let new_names = new_index_names(names.len(), hint, d);
    let primed = primed_names(names);
    let all = primed + new_names;
    let loops = reduce_headers(d.nest->Ok_0@, all);
    let fixed = fixed_values(d, loops, primed, new_names, new_names.len())->Ok_0;
    let text = value(env, st, all, body).0->Ok_0;
    let start = neutral(operator)->Some_0;
    let step = combined(operator, "reduceVar"@, text)->Some_0;
    if operator is Named {
        a_reduction_starts_from_the_identity(operator, "reduceVar"@, text, (1, 1));
        lemma_identity(operator);
    } else {
        lemma_zero();
    }
    assert(combined(operator, "reduceVar"@, text) == folding_text(operator, "reduceVar"@, text));
    assert(literal_value(start) == start_of(operator));
    let s1 = value(env, st, all, body).1;
    let fn_name = "reduce"@ + crate::text::dec(s1.reduce_fns.len());
    the_function_of_a_reduction_folds(
        fn_name,
        env.params,
        primed,
        new_names,
        loops,
        fixed,
        start,
        step,
        t,
        limit,
        vars,
        v,
        start_of(operator)->Some_0,
        op,
        term,
    );
}

proof fn lemma_zero()
    ensures
        literal_value("0.0f"@) == Some(Number::Finite(0, 1)),
{
}

proof fn lemma_identity(operator: Operator)
    requires
        operator is Named,
        step_of(operator->Named_0@) is Some,
    ensures
        neutral(operator) matches Some(text) && literal_value(text) == start_of(operator),
{
    reveal_strlit("+");
    reveal_strlit("sum");
    reveal_strlit("or");
    reveal_strlit("*");
    reveal_strlit("prod");
    reveal_strlit("and");
    reveal_strlit("min");
    reveal_strlit("max");
    reveal_strlit("0.0f");
    reveal_strlit("1.0f");
    reveal_strlit("INFINITY");
    reveal_strlit("-INFINITY");
    assert("+"@.len() == 1 && "*"@.len() == 1 && "+"@[0] != "*"@[0]);
    assert("sum"@.len() == 3 && "min"@.len() == 3 && "max"@.len() == 3 && "and"@.len() == 3);
    assert("sum"@[0] == 's' && "min"@[0] == 'm' && "max"@[0] == 'm' && "and"@[0] == 'a');
    assert("min"@[1] == 'i' && "max"@[1] == 'a');
    assert("or"@.len() == 2 && "prod"@.len() == 4);
    assert("0.0f"@[0] == '0' && "1.0f"@[0] == '1');
    assert("INFINITY"@.len() == 8 && "-INFINITY"@.len() == 9 && "0.0f"@.len() == 4);
    assert("1.0f"@.len() == 4);
}

} // verus!
