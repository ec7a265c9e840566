//! What a demand-driven program does when it runs: its entry point evaluates every point of every
//! output, and a point is computed once.
use crate::driver::{
    copies, flat_alloc, lemma_allocated, lemma_within, local_allocs, malloc_stmt, raw_stmts,
    var_names, wrapped,
};
use crate::execution::{lemma_run_one, lemma_run_sum, run_all, run_stmt, still, Event, Run, Texts};
use crate::ir::{System, Variable};
use crate::layout::{arith_text, extent, macro_params};
use crate::reduction_meaning::{done_at, done_at_all, nested_loops_run_at_every_point, scanned};
use crate::simplec::StmtModel;
use crate::text::{dec, joined};
use crate::writec::{
    driver, eval_call, eval_function, eval_loop, eval_loops, flag_alloc, flag_allocs, headers_model,
    index_decls, max_dims, validity_check, Header,
};
use vstd::prelude::*;

verus! {

/// The assignments among some events, each with its target and the text of its value.
pub open spec fn assignments(events: Seq<Event>) -> Seq<(Seq<char>, Seq<char>)>
    decreases events.len(),
{
    if events.len() == 0 {
        Seq::empty()
    } else {
        let before = assignments(events.drop_last());
        match events.last() {
            Event::Assigned { target, value, at } => before.push((target, value)),
            _ => before,
        }
    }
}

/// What a flag says of a point.
pub enum Flag {
    /// It has not been asked for.
    New,
    /// Its value is being computed.
    InProgress,
    /// Its value is there.
    Finished,
}

/// The letter of a flag.
pub open spec fn letter(f: Flag) -> Seq<char> {
    match f {
        Flag::New => "'N'"@,
        Flag::InProgress => "'I'"@,
        Flag::Finished => "'F'"@,
    }
}

/// C reads a comparison of a flag with a letter as whether the flag says so.
pub open spec fn flag_read(cell: Seq<char>, now: Flag, t: Texts) -> bool {
    forall|f: Flag, vars: Map<Seq<char>, int>| #[trigger]
        (t.truth)("("@ + cell + ") == ("@ + letter(f) + ")"@, vars) == (f == now)
}

/// The evaluation function of a variable computes a point when it is asked for the first time: it
/// says so, computes the value, and says that the value is there. When the value is there, it is
/// returned and nothing is computed. A point that is asked for while it is being computed depends on
/// itself: the program stops.
pub proof fn a_point_is_computed_once(
    name: Seq<char>,
    names: Seq<Seq<char>>,
    value: Seq<char>,
    now: Flag,
    t: Texts,
    limit: nat,
    vars: Map<Seq<char>, int>,
)
    requires
        flag_read("_flag_"@ + name + "("@ + joined(names, ","@) + ")"@, now, t),
    ensures
        ({
            let flag = "_flag_"@ + name + "("@ + joined(names, ","@) + ")"@;
            let cell = name + "("@ + joined(names, ","@) + ")"@;
            run_all(eval_function(name, names, value).body, t, limit, vars) matches Some(r) && {
                &&& r.ended
                &&& r.events.last() == (Event::Returned { value: Some(cell), at: vars })
                &&& now is New ==> assignments(r.events) == seq![
                    (flag, "'I'"@),
                    (cell, value),
                    (flag, "'F'"@),
                ]
                &&& now is Finished ==> assignments(r.events) == Seq::<
                    (Seq<char>, Seq<char>),
                >::empty()
                &&& now is InProgress ==> assignments(r.events) == Seq::<
                    (Seq<char>, Seq<char>),
                >::empty() && r.events.contains(Event::Line("exit(-1);"@))
            }
        }),
{
    let flag = "_flag_"@ + name + "("@ + joined(names, ","@) + ")"@;
    let cell = name + "("@ + joined(names, ","@) + ")"@;
    let f = eval_function(name, names, value);
    let blank = seq![StmtModel::Raw(""@)];
    let note = seq![f.body[1]];
    let own = f.body[2];
    let back = seq![StmtModel::Return(Some(cell))];
    reveal_strlit("");
    reveal_strlit("// Check the flags.");
    reveal_strlit("('N')");
    reveal_strlit("('I')");
    reveal_strlit("('F')");
    reveal_strlit("'N'");
    reveal_strlit("'I'");
    reveal_strlit("'F'");
    reveal_strlit(") == ('N')");
    reveal_strlit(") == ('I')");
    reveal_strlit(") == (");
    reveal_strlit(")");
    reveal_strlit("exit(-1);");
    assert(") == ('N')"@ =~= ") == ("@ + "'N'"@ + ")"@);
    assert(") == ('I')"@ =~= ") == ("@ + "'I'"@ + ")"@);
    assert("("@ + flag + ") == ('N')"@ =~= "("@ + flag + ") == ("@ + letter(Flag::New) + ")"@);
    assert("("@ + flag + ") == ('I')"@ =~= "("@ + flag + ") == ("@ + letter(Flag::InProgress)
        + ")"@);
    assert(f.body =~= blank + (note + (seq![own] + (blank + back))));
    lemma_run_one(blank[0], t, limit, vars);
    lemma_run_one(note[0], t, limit, vars);
    lemma_run_one(own, t, limit, vars);
    lemma_run_one(back[0], t, limit, vars);
    lemma_run_sum(blank, note + (seq![own] + (blank + back)), t, limit, vars);
    lemma_run_sum(note, seq![own] + (blank + back), t, limit, vars);
    lemma_run_sum(seq![own], blank + back, t, limit, vars);
    lemma_run_sum(blank, back, t, limit, vars);
    let none = Seq::<Event>::empty();
    let n = seq![Event::Line("// Check the flags."@)];
    let e = seq![Event::Returned { value: Some(cell), at: vars }];
    let fresh = (t.truth)("("@ + flag + ") == ('N')"@, vars);
    assert(fresh == (now is New)) by {
        assert((t.truth)("("@ + flag + ") == ("@ + letter(Flag::New) + ")"@, vars) == (Flag::New
            == now));
    }
    if fresh {
        let x = StmtModel::Assign { target: flag, value: "'I'"@ };
        let y = StmtModel::Assign { target: cell, value };
        let z = StmtModel::Assign { target: flag, value: "'F'"@ };
        let three = seq![x, y, z];
        assert(own->then_branch =~= three);
        assert(three =~= seq![x] + (seq![y] + seq![z]));
        lemma_run_one(x, t, limit, vars);
        lemma_run_one(y, t, limit, vars);
        lemma_run_one(z, t, limit, vars);
        lemma_run_sum(seq![x], seq![y] + seq![z], t, limit, vars);
        lemma_run_sum(seq![y], seq![z], t, limit, vars);
        let a = done_at(x, vars);
        let b = done_at(y, vars);
        let c = done_at(z, vars);
        let r = run_all(f.body, t, limit, vars)->Some_0;
        assert(r.events =~= n + seq![a, b, c] + e);
        let v = r.events;
        assert(v.drop_last() =~= n + seq![a, b, c]);
        assert(v.drop_last().drop_last() =~= n + seq![a, b]);
        assert(v.drop_last().drop_last().drop_last() =~= n + seq![a]);
        assert(v.drop_last().drop_last().drop_last().drop_last() =~= n);
        assert(n.drop_last() =~= none);
        assert(assignments(n.drop_last()) =~= Seq::empty());
        assert(assignments(n) =~= Seq::empty());
        assert(assignments(n + seq![a]) =~= seq![(flag, "'I'"@)]);
        assert(assignments(n + seq![a, b]) =~= seq![(flag, "'I'"@), (cell, value)]);
        assert(assignments(n + seq![a, b, c]) =~= seq![
            (flag, "'I'"@),
            (cell, value),
            (flag, "'F'"@),
        ]);
        assert(assignments(v) == assignments(v.drop_last()));
    } else {
        let inner = own->else_branch[0];
        assert(own->else_branch =~= seq![inner]);
        lemma_run_one(inner, t, limit, vars);
        let busy = (t.truth)("("@ + flag + ") == ('I')"@, vars);
        assert(busy == (now is InProgress)) by {
            assert((t.truth)("("@ + flag + ") == ("@ + letter(Flag::InProgress) + ")"@, vars) == (
            Flag::InProgress == now));
        }
        let r = run_all(f.body, t, limit, vars)->Some_0;
        if busy {
            let x = inner->then_branch[0];
            let y = inner->then_branch[1];
            assert(inner->then_branch =~= seq![x] + seq![y]);
            lemma_run_one(x, t, limit, vars);
            lemma_run_one(y, t, limit, vars);
            lemma_run_sum(seq![x], seq![y], t, limit, vars);
            let line = x->Raw_0;
            reveal_strlit("printf(\"There is a self dependence on ");
            assert(line.len() > 0);
            let a = Event::Line(line);
            let b = Event::Line("exit(-1);"@);
            assert(r.events =~= n + seq![a, b] + e);
            let v = r.events;
            assert(v[2] == b);
            assert(v.drop_last() =~= n + seq![a, b]);
            assert(v.drop_last().drop_last() =~= n + seq![a]);
            assert(v.drop_last().drop_last().drop_last() =~= n);
            assert(n.drop_last() =~= none);
            assert(assignments(n.drop_last()) =~= Seq::empty());
            assert(assignments(n) =~= Seq::empty());
            assert(assignments(n + seq![a]) =~= Seq::empty());
            assert(assignments(n + seq![a, b]) =~= Seq::empty());
        } else {
            assert(inner->else_branch =~= Seq::empty());
            assert(r.events =~= n + e);
            let v = r.events;
            assert(v.drop_last() =~= n);
            assert(n.drop_last() =~= none);
            assert(assignments(n.drop_last()) =~= Seq::empty());
            assert(assignments(n) =~= Seq::empty());
        }
    }
}

/// Where the parameters are not valid, the program stops; where they are, the check does nothing.
pub proof fn invalid_parameters_stop_the_program(
    validity: Seq<char>,
    t: Texts,
    limit: nat,
    vars: Map<Seq<char>, int>,
)
    requires
        (t.truth)("!("@ + validity + ")"@, vars) == !(t.truth)(validity, vars),
    ensures
        run_stmt(validity_check(validity), t, limit, vars) matches Some(r) && r.vars == vars && {
            &&& (t.truth)(validity, vars) ==> r.events.len() == 0
            &&& !(t.truth)(validity, vars) ==> r.events.len() > 0 && r.events.last()
                == Event::Line("exit(-1);"@)
        },
{
    let s = validity_check(validity);
    let v = s->then_branch;
    reveal_strlit("exit(-1);");
    reveal_strlit("printf(\"The value of the parameters are invalid.\\n\");");
    assert(v =~= seq![v[0]] + seq![v[1]]);
    lemma_run_one(v[0], t, limit, vars);
    lemma_run_one(v[1], t, limit, vars);
    lemma_run_sum(seq![v[0]], seq![v[1]], t, limit, vars);
}

/// The call that evaluates a variable at the point `i0`, `i1`, and so on.
pub open spec fn call_of(v: Variable) -> StmtModel {
    StmtModel::Expr(
        "eval_"@ + v.name@ + "("@ + joined(
            Seq::new(v.domain.ndims as nat, |i: int| "i"@ + dec(i as nat)),
            ", "@,
        ) + ")"@,
    )
}

/// The loops that scan the domain of a variable; one without dimensions has none.
pub open spec fn loops_of(v: Variable) -> Seq<Header> {
    if v.domain.ndims == 0 {
        Seq::empty()
    } else {
        headers_model(v.domain.nest->Ok_0@)
    }
}

/// The run that evaluates each of some variables at every point that its loops visit, one variable
/// after another.
pub open spec fn evaluated(
    vars: Seq<Variable>,
    t: Texts,
    limit: nat,
    start: Map<Seq<char>, int>,
) -> Option<Run>
    decreases vars.len(),
{
    if vars.len() == 0 {
        Some(still(start))
    } else {
        match evaluated(vars.drop_last(), t, limit, start) {
            None => None,
            Some(first) => match scanned(loops_of(vars.last()), t, limit, first.vars) {
                None => None,
                Some(s) => Some(
                    Run {
                        vars: s.vars,
                        events: first.events + done_at_all(call_of(vars.last()), s.visits),
                        ended: false,
                    },
                ),
            },
        }
    }
}

/// The loops over the outputs evaluate every output at every point of its domain.
pub proof fn every_output_is_evaluated_at_every_point(
    outputs: Seq<Variable>,
    t: Texts,
    limit: nat,
    vars: Map<Seq<char>, int>,
)
    requires
        eval_loops(outputs) is Ok,
    ensures
        run_all(eval_loops(outputs)->Ok_0, t, limit, vars) == evaluated(outputs, t, limit, vars),
    decreases outputs.len(),
{
    if outputs.len() > 0 {
        let before = eval_loops(outputs.drop_last())->Ok_0;
        let more = eval_loop(outputs.last())->Ok_0;
        every_output_is_evaluated_at_every_point(outputs.drop_last(), t, limit, vars);
        lemma_run_sum(before, more, t, limit, vars);
        let v = outputs.last();
        assert(macro_params(v.domain.ndims as nat) =~= Seq::new(
            v.domain.ndims as nat,
            |i: int| "i"@ + dec(i as nat),
        ));
        assert(eval_call(v) == call_of(v));
        if let Some(first) = evaluated(outputs.drop_last(), t, limit, vars) {
            lemma_not_ended(outputs.drop_last(), t, limit, vars);
            nested_loops_run_at_every_point(loops_of(v), call_of(v), t, limit, first.vars);
        }
    }
}

proof fn lemma_not_ended(
    outputs: Seq<Variable>,
    t: Texts,
    limit: nat,
    vars: Map<Seq<char>, int>,
)
    ensures
        evaluated(outputs, t, limit, vars) matches Some(r) ==> !r.ended,
{
}

/// The flags of a variable all start as those of points that have not been asked for.
pub open spec fn flags_are_new(v: Variable) -> StmtModel {
    let flag = "_flag_"@ + v.name@;
    StmtModel::Raw(
        "memset("@ + flag + ","@ + letter(Flag::New) + ","@ + arith_text(
            extent(flag, 0, v.domain.ndims as nat),
        ) + ");"@,
    )
}

proof fn lemma_flags(vars: Seq<Variable>, k: int)
    requires
        flag_allocs(vars) is Ok,
        0 <= k < vars.len(),
    ensures
        flag_allocs(vars)->Ok_0.contains(flags_are_new(vars[k])),
    decreases vars.len(),
{
    let before = flag_allocs(vars.drop_last())->Ok_0;
    let more = flag_alloc(vars.last())->Ok_0;
    if k == vars.len() - 1 {
        reveal_strlit(",'N',");
        reveal_strlit(",");
        reveal_strlit("'N'");
        assert(",'N',"@ =~= ","@ + "'N'"@ + ","@);
        let v = vars[k];
        let flag = "_flag_"@ + v.name@;
        let size = arith_text(extent(flag, 0, v.domain.ndims as nat));
        assert("memset("@ + flag + ",'N',"@ + size + ");"@ =~= "memset("@ + flag + ","@ + letter(
            Flag::New,
        ) + ","@ + size + ");"@);
        assert(more.last() == flags_are_new(v));
        assert(more[more.len() - 1] == flags_are_new(v));
        lemma_within(before, more, flags_are_new(v));
    } else {
        lemma_flags(vars.drop_last(), k);
        assert(vars.drop_last()[k] == vars[k]);
        lemma_within(before, more, flags_are_new(vars[k]));
    }
}

/// No statement of a list calls anything: none is a call, and none is a loop.
pub open spec fn calls_nothing(v: Seq<StmtModel>) -> bool {
    forall|i: int| 0 <= i < v.len() ==> !((#[trigger] v[i]) is Expr) && !(v[i] is For)
}

proof fn lemma_calls_nothing_sum(a: Seq<StmtModel>, b: Seq<StmtModel>)
    requires
        calls_nothing(a),
        calls_nothing(b),
    ensures
        calls_nothing(a + b),
{
    assert forall|i: int| 0 <= i < (a + b).len() implies !((#[trigger] (a + b)[i]) is Expr) && !((a
        + b)[i] is For) by {
        if i < a.len() {
            assert((a + b)[i] == a[i]);
        } else {
            assert((a + b)[i] == b[i - a.len()]);
        }
    }
}

/// Getting storage calls nothing.
pub proof fn lemma_local_allocs_call_nothing(vars: Seq<Variable>)
    requires
        local_allocs(vars) is Ok,
    ensures
        calls_nothing(local_allocs(vars)->Ok_0),
    decreases vars.len(),
{
    if vars.len() > 0 {
        lemma_local_allocs_call_nothing(vars.drop_last());
        let before = local_allocs(vars.drop_last())->Ok_0;
        let more = flat_alloc(vars.last().name@, vars.last().domain, "float"@)->Ok_0;
        assert(calls_nothing(more));
        lemma_calls_nothing_sum(before, more);
    }
}

proof fn lemma_flag_allocs_call_nothing(vars: Seq<Variable>)
    requires
        flag_allocs(vars) is Ok,
    ensures
        calls_nothing(flag_allocs(vars)->Ok_0),
    decreases vars.len(),
{
    if vars.len() > 0 {
        lemma_flag_allocs_call_nothing(vars.drop_last());
        let before = flag_allocs(vars.drop_last())->Ok_0;
        let more = flag_alloc(vars.last())->Ok_0;
        assert(calls_nothing(more));
        lemma_calls_nothing_sum(before, more);
    }
}

/// `name = _local_name;` takes over an argument of the entry point.
pub open spec fn takes_over(name: Seq<char>) -> StmtModel {
    StmtModel::Assign { target: name, value: "_local_"@ + name }
}

/// The arguments are taken over: the parameters, the inputs and the outputs.
pub open spec fn takes_arguments(
    start: Seq<StmtModel>,
    params: Seq<Seq<char>>,
    system: System,
) -> bool {
    &&& forall|k: int| 0 <= k < params.len() ==> start.contains(takes_over(#[trigger] params[k]))
    &&& forall|k: int|
        0 <= k < system.inputs@.len() ==> start.contains(
            takes_over((#[trigger] system.inputs@[k]).name@),
        )
    &&& forall|k: int|
        0 <= k < system.outputs@.len() ==> start.contains(
            takes_over((#[trigger] system.outputs@[k]).name@),
        )
}

pub proof fn lemma_takes_arguments(params: Seq<Seq<char>>, system: System)
    ensures
        takes_arguments(
            copies(params) + copies(var_names(system.inputs@)) + copies(
                var_names(system.outputs@),
            ),
            params,
            system,
        ),
{
    let a = copies(params);
    let b = copies(var_names(system.inputs@));
    let c = copies(var_names(system.outputs@));
    assert forall|k: int| 0 <= k < params.len() implies (a + b + c).contains(
        takes_over(#[trigger] params[k]),
    ) by {
        assert((a + b + c)[k] == takes_over(params[k]));
    }
    assert forall|k: int| 0 <= k < system.inputs@.len() implies (a + b + c).contains(
        takes_over((#[trigger] system.inputs@[k]).name@),
    ) by {
        assert((a + b + c)[a.len() + k] == takes_over(system.inputs@[k].name@));
    }
    assert forall|k: int| 0 <= k < system.outputs@.len() implies (a + b + c).contains(
        takes_over((#[trigger] system.outputs@[k]).name@),
    ) by {
        assert((a + b + c)[a.len() + b.len() + k] == takes_over(system.outputs@[k].name@));
    }
}

/// An entry point consists of a start that takes over the arguments, checks the parameters, gets the
/// storage of the locals, and gets flags that are all new; of the loops over the outputs; and of an
/// end. Only the loops call anything.
pub open spec fn is_entry(
    body: Seq<StmtModel>,
    start: Seq<StmtModel>,
    loops: Seq<StmtModel>,
    end: Seq<StmtModel>,
    params: Seq<Seq<char>>,
    system: System,
) -> bool {
    &&& body == start + loops + end
    &&& calls_nothing(start)
    &&& calls_nothing(end)
    &&& takes_arguments(start, params, system)
    &&& start.contains(validity_check(system.validity->Ok_0@))
    &&& forall|k: int|
        0 <= k < system.outputs@.len() ==> start.contains(
            flags_are_new(#[trigger] system.outputs@[k]),
        )
    &&& forall|k: int|
        0 <= k < system.locals@.len() ==> start.contains(
            flags_are_new(#[trigger] system.locals@[k]),
        )
    &&& forall|k: int|
        0 <= k < system.locals@.len() ==> start.contains(
            malloc_stmt(
                (#[trigger] system.locals@[k]).name@,
                system.locals@[k].domain.ndims,
                "float"@,
            ),
        )
}

/// The entry point of a demand-driven program takes over its arguments, checks the parameters and
/// gets storage and new flags before it evaluates the outputs, and does nothing else that would
/// evaluate anything.
pub proof fn the_entry_point_prepares_before_it_evaluates(
    params: Seq<Seq<char>>,
    system: System,
)
    ensures
        driver(params, system) matches Ok(f) ==> eval_loops(system.outputs@) is Ok && exists|
            start: Seq<StmtModel>,
            end: Seq<StmtModel>,
        | #[trigger]
            is_entry(f.body, start, eval_loops(system.outputs@)->Ok_0, end, params, system),
{
    if let Ok(f) = driver(params, system) {
        let validity = system.validity->Ok_0@;
        let locals = local_allocs(system.locals@)->Ok_0;
        let output_flags = flag_allocs(system.outputs@)->Ok_0;
        let local_flags = flag_allocs(system.locals@)->Ok_0;
        let loops = eval_loops(system.outputs@)->Ok_0;
        let decls = index_decls(macro_params(max_dims(system.outputs@) as nat), Seq::empty()) + seq![
            StmtModel::Raw(""@),
            StmtModel::Raw("// Copy arguments to the global variables."@),
        ];
        let taken = copies(params) + copies(var_names(system.inputs@)) + copies(
            var_names(system.outputs@),
        );
        let check = seq![
            StmtModel::Raw(""@),
            StmtModel::Raw("// Check parameter validity."@),
            validity_check(validity),
            StmtModel::Raw(""@),
            StmtModel::Raw("// Allocate memory for local storage."@),
        ];
        let flags = seq![
            StmtModel::Raw(""@),
            StmtModel::Raw("// Allocate and initialize flag variables."@),
        ];
        let outputs = seq![StmtModel::Raw(""@), StmtModel::Raw("// Evaluate all the outputs."@)];
        let frees = seq![StmtModel::Raw(""@), StmtModel::Raw("// Free all allocated memory."@)];
        let s1 = decls + taken;
        let s2 = s1 + check;
        let s3 = s2 + locals;
        let s4 = s3 + flags;
        let s5 = s4 + output_flags;
        let s6 = s5 + local_flags;
        let start = s6 + outputs;
        let end = frees + (raw_stmts(wrapped("free("@, var_names(system.locals@), ");"@))
            + raw_stmts(wrapped("free(_flag_"@, var_names(system.outputs@), ");"@)) + raw_stmts(
            wrapped("free(_flag_"@, var_names(system.locals@), ");"@),
        ));
        assert(f.body =~= start + loops + end);
        lemma_local_allocs_call_nothing(system.locals@);
        lemma_flag_allocs_call_nothing(system.outputs@);
        lemma_flag_allocs_call_nothing(system.locals@);
        assert(calls_nothing(decls));
        assert(calls_nothing(taken));
        lemma_calls_nothing_sum(decls, taken);
        lemma_calls_nothing_sum(s1, check);
        lemma_calls_nothing_sum(s2, locals);
        lemma_calls_nothing_sum(s3, flags);
        lemma_calls_nothing_sum(s4, output_flags);
        lemma_calls_nothing_sum(s5, local_flags);
        lemma_calls_nothing_sum(s6, outputs);
        assert(calls_nothing(end));
        lemma_takes_arguments(params, system);
        assert(check[2] == validity_check(validity));
        assert forall|x: StmtModel|
            #![trigger start.contains(x)]
            taken.contains(x) || check.contains(x) || locals.contains(x) || output_flags.contains(x)
                || local_flags.contains(x) implies start.contains(x) by {
            lemma_within(decls, taken, x);
            lemma_within(s1, check, x);
            lemma_within(s2, locals, x);
            lemma_within(s3, flags, x);
            lemma_within(s4, output_flags, x);
            lemma_within(s5, local_flags, x);
            lemma_within(s6, outputs, x);
        }
        assert forall|k: int| 0 <= k < system.outputs@.len() implies start.contains(
            flags_are_new(#[trigger] system.outputs@[k]),
        ) by {
            lemma_flags(system.outputs@, k);
        }
        assert forall|k: int| 0 <= k < system.locals@.len() implies start.contains(
            flags_are_new(#[trigger] system.locals@[k]),
        ) by {
            lemma_flags(system.locals@, k);
        }
        assert forall|k: int| 0 <= k < system.locals@.len() implies start.contains(
            malloc_stmt(
                (#[trigger] system.locals@[k]).name@,
                system.locals@[k].domain.ndims,
                "float"@,
            ),
        ) by {
            lemma_allocated(system.locals@, k);
        }
        assert(start.contains(validity_check(validity)));
        assert(takes_arguments(start, params, system)) by {
            assert forall|k: int| 0 <= k < params.len() implies start.contains(
                takes_over(#[trigger] params[k]),
            ) by {
                assert(taken.contains(takes_over(params[k])));
            }
            assert forall|k: int| 0 <= k < system.inputs@.len() implies start.contains(
                takes_over((#[trigger] system.inputs@[k]).name@),
            ) by {
                assert(taken.contains(takes_over(system.inputs@[k].name@)));
            }
            assert forall|k: int| 0 <= k < system.outputs@.len() implies start.contains(
                takes_over((#[trigger] system.outputs@[k]).name@),
            ) by {
                assert(taken.contains(takes_over(system.outputs@[k].name@)));
            }
        }
        assert(is_entry(f.body, start, loops, end, params, system));
    }
}

/// The entry point of a scheduled program takes over its arguments and gets storage before it runs
/// the statements of the program, of which none is left out.
pub proof fn the_scheduled_entry_point_prepares_before_it_runs(
    params: Seq<Seq<char>>,
    system: System,
    body: Seq<StmtModel>,
)
    ensures
        crate::scheduledc::driver(params, system, body) matches Ok(f) ==> exists|
            start: Seq<StmtModel>,
            end: Seq<StmtModel>,
        | #[trigger]
            is_scheduled_entry(f.body, start, body, end, params, system),
{
    if let Ok(f) = crate::scheduledc::driver(params, system, body) {
        let locals = local_allocs(system.locals@)->Ok_0;
        let taken = copies(params) + copies(var_names(system.inputs@)) + copies(
            var_names(system.outputs@),
        );
        let one = seq![
            StmtModel::Raw(""@),
            StmtModel::Raw("// Allocate memory for local storage."@),
        ];
        let two = seq![
            StmtModel::Raw(""@),
            StmtModel::Raw("// Evaluate every statement, in schedule order."@),
        ];
        let three = seq![StmtModel::Raw(""@), StmtModel::Raw("// Free all allocated memory."@)];
        let start = taken + one + locals + two;
        let end = three + raw_stmts(wrapped("free("@, var_names(system.locals@), ");"@));
        assert(f.body =~= start + body + end);
        lemma_local_allocs_call_nothing(system.locals@);
        assert(calls_nothing(taken));
        lemma_calls_nothing_sum(taken, one);
        lemma_calls_nothing_sum(taken + one, locals);
        lemma_calls_nothing_sum(taken + one + locals, two);
        assert(calls_nothing(end));
        lemma_takes_arguments(params, system);
        assert forall|x: StmtModel|
            #![trigger start.contains(x)]
            taken.contains(x) || locals.contains(x) implies start.contains(x) by {
            lemma_within(taken, one, x);
            lemma_within(taken + one, locals, x);
            lemma_within(taken + one + locals, two, x);
        }
        assert forall|k: int| 0 <= k < system.locals@.len() implies start.contains(
            malloc_stmt(
                (#[trigger] system.locals@[k]).name@,
                system.locals@[k].domain.ndims,
                "float"@,
            ),
        ) by {
            lemma_allocated(system.locals@, k);
        }
        assert forall|k: int| 0 <= k < params.len() implies start.contains(
            takes_over(#[trigger] params[k]),
        ) by {
            assert(taken.contains(takes_over(params[k])));
        }
        assert forall|k: int| 0 <= k < system.inputs@.len() implies start.contains(
            takes_over((#[trigger] system.inputs@[k]).name@),
        ) by {
            assert(taken.contains(takes_over(system.inputs@[k].name@)));
        }
        assert forall|k: int| 0 <= k < system.outputs@.len() implies start.contains(
            takes_over((#[trigger] system.outputs@[k]).name@),
        ) by {
            assert(taken.contains(takes_over(system.outputs@[k].name@)));
        }
        assert(is_scheduled_entry(f.body, start, body, end, params, system));
    }
}

/// An entry point consists of a start that takes over the arguments and gets the storage of the
/// locals, of the statements of the program, and of an end.
pub open spec fn is_scheduled_entry(
    whole: Seq<StmtModel>,
    start: Seq<StmtModel>,
    body: Seq<StmtModel>,
    end: Seq<StmtModel>,
    params: Seq<Seq<char>>,
    system: System,
) -> bool {
    &&& whole == start + body + end
    &&& calls_nothing(start)
    &&& calls_nothing(end)
    &&& takes_arguments(start, params, system)
    &&& forall|k: int|
        0 <= k < system.locals@.len() ==> start.contains(
            malloc_stmt(
                (#[trigger] system.locals@[k]).name@,
                system.locals@[k].domain.ndims,
                "float"@,
            ),
        )
}

} // verus!
