//! Running the C statements that the generators emit.
//!
//! What a text says is up to C; here it is any way of reading texts. Loops may run any number of
//! times: a limit on how often each of them does makes running them a function, and everything holds
//! for every limit.
use crate::simplec::{CType, StmtModel};
use vstd::prelude::*;

verus! {

/// What a C text says, given the values of the integer variables.
pub struct Texts {
    pub number: spec_fn(Seq<char>, Map<Seq<char>, int>) -> int,
    pub truth: spec_fn(Seq<char>, Map<Seq<char>, int>) -> bool,
}

/// What a run does that can be seen from outside.
#[allow(inconsistent_fields)]
pub enum Event {
    /// A variable that is no integer comes to be, without a value.
    Declared(Seq<char>),
    /// `target = value;` with the integer variables as they are.
    Assigned { target: Seq<char>, value: Seq<char>, at: Map<Seq<char>, int> },
    /// Some other line.
    Line(Seq<char>),
    /// `text;` with the integer variables as they are.
    Called { text: Seq<char>, at: Map<Seq<char>, int> },
    Returned { value: Option<Seq<char>>, at: Map<Seq<char>, int> },
}

/// Where a run gets to: the integer variables, what it did, and whether it returned.
pub struct Run {
    pub vars: Map<Seq<char>, int>,
    pub events: Seq<Event>,
    pub ended: bool,
}

/// A run that has done nothing yet.
pub open spec fn still(vars: Map<Seq<char>, int>) -> Run {
    Run { vars, events: Seq::empty(), ended: false }
}

pub open spec fn after_event(vars: Map<Seq<char>, int>, e: Event) -> Run {
    Run { vars, events: seq![e], ended: e is Returned }
}

/// One run after another, which goes on from where the first one got to.
pub open spec fn followed(first: Run, second: Run) -> Run {
    Run { vars: second.vars, events: first.events + second.events, ended: second.ended }
}

/// Some statement of a list declares the variable.
pub open spec fn declares(v: Seq<StmtModel>, name: Seq<char>) -> bool {
    exists|i: int| 0 <= i < v.len() && is_declaration(#[trigger] v[i], name)
}

pub open spec fn is_declaration(s: StmtModel, name: Seq<char>) -> bool {
    s matches StmtModel::Decl { ty, name: n, init } && n == name
}

/// The variables after a block: what it declares is gone, and what it hid is there again.
pub open spec fn left_block(
    before: Map<Seq<char>, int>,
    after: Map<Seq<char>, int>,
    v: Seq<StmtModel>,
) -> Map<Seq<char>, int> {
    Map::new(
        |k: Seq<char>|
            if declares(v, k) {
                before.dom().contains(k)
            } else {
                after.dom().contains(k)
            },
        |k: Seq<char>|
            if declares(v, k) {
                before[k]
            } else {
                after[k]
            },
    )
}

/// Runs a statement. `None` is a run in which some loop runs more often than `limit` allows.
pub open spec fn run_stmt(
    s: StmtModel,
    t: Texts,
    limit: nat,
    vars: Map<Seq<char>, int>,
) -> Option<Run>
    decreases s, 0nat,
{
    match s {
        StmtModel::Decl { ty, name, init } => Some(
            if ty == CType::Long {
                still(
                    match init {
                        Some(e) => vars.insert(name, (t.number)(e, vars)),
                        None => vars.remove(name),
                    },
                )
            } else {
                match init {
                    Some(e) => Run {
                        vars,
                        events: seq![
                            Event::Declared(name),
                            Event::Assigned { target: name, value: e, at: vars },
                        ],
                        ended: false,
                    },
                    None => after_event(vars, Event::Declared(name)),
                }
            },
        ),
        StmtModel::Assign { target, value } => Some(
            after_event(vars, Event::Assigned { target, value, at: vars }),
        ),
        StmtModel::If { cond, then_branch, else_branch } => if (t.truth)(cond, vars) {
            run_all(then_branch, t, limit, vars)
        } else {
            run_all(else_branch, t, limit, vars)
        },
        StmtModel::For { iterator, init, cond, inc, body } => run_loop(
            iterator,
            cond,
            inc,
            body,
            t,
            limit,
            limit,
            vars.insert(iterator, (t.number)(init, vars)),
        ),
        StmtModel::Return(e) => Some(after_event(vars, Event::Returned { value: e, at: vars })),
        StmtModel::Expr(e) => Some(after_event(vars, Event::Called { text: e, at: vars })),
        StmtModel::Raw(line) => Some(
            if line.len() == 0 {
                still(vars)
            } else {
                after_event(vars, Event::Line(line))
            },
        ),
        StmtModel::Block(body) => match run_all(body, t, limit, vars) {
            None => None,
            Some(r) => Some(Run { vars: left_block(vars, r.vars, body), ..r }),
        },
    }
}

/// Runs statements one after another, until one returns.
pub open spec fn run_all(
    v: Seq<StmtModel>,
    t: Texts,
    limit: nat,
    vars: Map<Seq<char>, int>,
) -> Option<Run>
    decreases v, 0nat,
{
    if v.len() == 0 {
        Some(still(vars))
    } else {
        match run_all(v.drop_last(), t, limit, vars) {
            None => None,
            Some(first) => if first.ended {
                Some(first)
            } else {
                match run_stmt(v.last(), t, limit, first.vars) {
                    None => None,
                    Some(second) => Some(followed(first, second)),
                }
            },
        }
    }
}

/// Runs the body of a loop as long as its condition holds, at most `n` times.
pub open spec fn run_loop(
    iterator: Seq<char>,
    cond: Seq<char>,
    inc: Seq<char>,
    body: Seq<StmtModel>,
    t: Texts,
    limit: nat,
    n: nat,
    vars: Map<Seq<char>, int>,
) -> Option<Run>
    decreases body, n + 1,
{
    if !(t.truth)(cond, vars) {
        Some(still(vars))
    } else if n == 0 {
        None
    } else {
        match run_all(body, t, limit, vars) {
            None => None,
            Some(first) => if first.ended {
                Some(first)
            } else {
                let next = first.vars.insert(
                    iterator,
                    first.vars[iterator] + (t.number)(inc, first.vars),
                );
                match run_loop(iterator, cond, inc, body, t, limit, (n - 1) as nat, next) {
                    None => None,
                    Some(second) => Some(followed(first, second)),
                }
            },
        }
    }
}

/// Running two lists one after the other is running the one and then the other.
pub proof fn lemma_run_sum(
    a: Seq<StmtModel>,
    b: Seq<StmtModel>,
    t: Texts,
    limit: nat,
    vars: Map<Seq<char>, int>,
)
    ensures
        run_all(a + b, t, limit, vars) == match run_all(a, t, limit, vars) {
            None => None,
            Some(first) => if first.ended {
                Some(first)
            } else {
                match run_all(b, t, limit, first.vars) {
                    None => None,
                    Some(second) => Some(followed(first, second)),
                }
            },
        },
    decreases b.len(),
{
    if b.len() == 0 {
        assert(a + b =~= a);
        if let Some(first) = run_all(a, t, limit, vars) {
            if !first.ended {
                assert(first.events + Seq::<Event>::empty() =~= first.events);
                assert(followed(first, still(first.vars)) == first);
            }
        }
    } else {
        lemma_run_sum(a, b.drop_last(), t, limit, vars);
        assert((a + b).drop_last() =~= a + b.drop_last());
        assert((a + b).last() == b.last());
        if let Some(first) = run_all(a, t, limit, vars) {
            if !first.ended {
                if let Some(second) = run_all(b.drop_last(), t, limit, first.vars) {
                    if !second.ended {
                        if let Some(third) = run_stmt(b.last(), t, limit, second.vars) {
                            assert(first.events + second.events + third.events =~= first.events + (
                            second.events + third.events));
                        }
                    }
                }
            }
        }
    }
}

pub proof fn lemma_run_one(s: StmtModel, t: Texts, limit: nat, vars: Map<Seq<char>, int>)
    ensures
        run_all(seq![s], t, limit, vars) == run_stmt(s, t, limit, vars),
{
    assert(seq![s].drop_last() =~= Seq::<StmtModel>::empty());
    assert(seq![s].last() == s);
    assert(run_all(seq![s].drop_last(), t, limit, vars) == Some(still(vars)));
    if let Some(r) = run_stmt(s, t, limit, vars) {
        assert(Seq::<Event>::empty() + r.events =~= r.events);
        assert(followed(still(vars), r) == r);
    }
}

} // verus!
