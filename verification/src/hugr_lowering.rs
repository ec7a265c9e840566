//! Index expressions and predicates as HUGR dataflow.
use crate::dataflow::{
    adds, bind, bool_op_on, can_read, conditionals, copyable, fits, grows, input_types, int_op_on,
    keeps_sound, known, lemma_adds, lemma_grows_refl, lemma_grows_trans, lemma_keeps_all, not_on,
    output_types, pending, region_results, results, run, select_on, sound, step, unread, valid,
    value_at, wire_type, BoolOp, IntOp, Op, Sig, Step, Ty, Val,
};
use crate::error::{CodegenError, Failure, Result};
use crate::hugr_builder::{
    begins, binary_bool_op, binary_int_op, build_error_text, case_view, choice_view, close_choice,
    finish_case, lemma_begins, load_bool, load_int, not_op, open_case, open_int_choice,
    region_steps,
};
use crate::scheduled_ir::{
    index_models, predicate_models, CompareOp, IndexExpr, IndexModel, Predicate, PredicateModel,
};
use crate::text::{cat3, str_eq};
use hugr::builder::{BuildError, DFGBuilder};
use hugr::{Hugr, Wire};
use vstd::prelude::*;

verus! {

pub(crate) fn build_error(e: BuildError) -> (r: CodegenError)
    ensures
        r is Hugr,
{
    CodegenError::Hugr(build_error_text(e))
}

/// A wire of the region, of a type.
pub open spec fn has_type(steps: Seq<Step>, w: Wire, t: Ty) -> bool {
    known(steps, w) && wire_type(steps, w) == t
}

/// The type of what an integer operation gives.
pub open spec fn int_op_type(op: IntOp) -> Ty {
    output_types(Op::Int(op))[0]
}

/// An integer operation on two wires.
pub fn binary_int(b: &mut DFGBuilder<Hugr>, op: IntOp, lhs: Wire, rhs: Wire) -> (r: Result<Wire>)
    requires
        known(region_steps(*old(b)), lhs),
        known(region_steps(*old(b)), rhs),
    ensures
        r is Ok <==> can_read(Seq::empty(), region_steps(*old(b)), seq![lhs, rhs]),
        r matches Err(e) ==> e is Hugr,
        r matches Ok(w) ==> {
            &&& grows(region_steps(*old(b)), region_steps(*final(b)))
            &&& conditionals(region_steps(*final(b))) == conditionals(
                region_steps(*old(b)),
            )
            &&& has_type(region_steps(*final(b)), w, int_op_type(op))
            &&& !unread(region_steps(*final(b)), lhs)
            &&& !unread(region_steps(*final(b)), rhs)
            &&& wire_type(region_steps(*old(b)), lhs) is Int && wire_type(
                region_steps(*old(b)),
                rhs,
            ) is Int ==> keeps_sound(region_steps(*old(b)), region_steps(*final(b)))
            &&& forall|env: Map<Wire, Val>| #[trigger]
                run(region_steps(*final(b)), env)[w] == int_op_on(
                    op,
                    run(region_steps(*old(b)), env)[lhs],
                    run(region_steps(*old(b)), env)[rhs],
                )
        },
{
    let ghost s0 = region_steps(*b);
    match binary_int_op(b, op, lhs, rhs) {
        Ok(w) => {
            proof {
                let ins = seq![lhs, rhs];
                lemma_adds(Seq::empty(), s0, region_steps(*b), Op::Int(op), ins, seq![w]);
                assert(seq![w][0] == w);
                assert(ins[0] == lhs && ins[1] == rhs);
                assert(ins.contains(lhs) && ins.contains(rhs));
            }
            Ok(w)
        },
        Err(e) => Err(build_error(e)),
    }
}

/// A region that hands on one of its inputs, which can be copied, along with the others.
proof fn lemma_hands_on(around: Seq<Step>, steps: Seq<Step>, sig: Sig, inputs: Seq<Wire>, at: int)
    requires
        begins(around, steps, sig, inputs),
        0 <= at < inputs.len(),
        forall|i: int| 0 <= i < sig.inputs.len() ==> copyable(#[trigger] sig.inputs[i]),
        sig.outputs == seq![sig.inputs[at]],
    ensures
        can_read(around, steps, seq![inputs[at]]),
        valid(around, steps.push(step(Op::Output, seq![inputs[at]], seq![]))),
        forall|ins: Seq<Val>, env: Map<Wire, Val>|
            #![trigger region_results(
                steps.push(step(Op::Output, seq![inputs[at]], seq![])),
                ins,
                env,
            )]
            region_results(steps.push(step(Op::Output, seq![inputs[at]], seq![])), ins, env)
                == seq![value_at(ins, at)],
{
    lemma_begins(around, steps, sig, inputs);
    let s = step(Op::Output, seq![inputs[at]], seq![]);
    let whole = steps.push(s);
    assert(whole.drop_last() =~= steps);
    assert(seq![inputs[at]][0] == inputs[at]);
    assert(fits(around, steps, s));
    assert(sound(around, whole));
    assert(adds(around, steps, whole, Op::Output, seq![inputs[at]], Seq::<Wire>::empty()));
    lemma_adds(around, steps, whole, Op::Output, seq![inputs[at]], Seq::<Wire>::empty());
    assert forall|w: Wire| !#[trigger] pending(whole, w) by {
        if pending(whole, w) {
            assert(pending(steps, w));
        }
    }
    assert forall|ins: Seq<Val>, env: Map<Wire, Val>|
        #![trigger region_results(whole, ins, env)]
        region_results(whole, ins, env) == seq![value_at(ins, at)] by {
        let bound = bind(env, inputs, ins);
        assert(steps.drop_last() =~= Seq::<Step>::empty());
        assert(run(steps.drop_last(), bound) == bound);
        assert(run(steps, bound) == bound);
        assert(inputs.contains(inputs[at]));
        assert(inputs.index_of(inputs[at]) == at);
        assert(region_results(whole, ins, env) =~= seq![value_at(ins, at)]);
    }
}

/// One of two integers, picked by a condition.
#[verifier::rlimit(80)]
#[verifier::spinoff_prover]
pub fn select_int(b: &mut DFGBuilder<Hugr>, condition: Wire, when_false: Wire, when_true: Wire) -> (r:
    Result<Wire>)
    requires
        known(region_steps(*old(b)), condition),
        known(region_steps(*old(b)), when_false),
        known(region_steps(*old(b)), when_true),
    ensures
        r is Ok <==> can_read(
            Seq::empty(),
            region_steps(*old(b)),
            seq![condition, when_false, when_true],
        ),
        r matches Err(e) ==> e is Hugr,
        r matches Ok(w) ==> {
            &&& grows(region_steps(*old(b)), region_steps(*final(b)))
            &&& conditionals(region_steps(*final(b))) == conditionals(
                region_steps(*old(b)),
            ) + 1
            &&& has_type(region_steps(*final(b)), w, Ty::Int)
            &&& wire_type(region_steps(*old(b)), condition) is Bool && wire_type(
                region_steps(*old(b)),
                when_false,
            ) is Int && wire_type(region_steps(*old(b)), when_true) is Int ==> keeps_sound(
                region_steps(*old(b)),
                region_steps(*final(b)),
            )
            &&& forall|env: Map<Wire, Val>| #[trigger]
                run(region_steps(*final(b)), env)[w] == select_on(
                    run(region_steps(*old(b)), env)[condition],
                    run(region_steps(*old(b)), env)[when_false],
                    run(region_steps(*old(b)), env)[when_true],
                )
        },
{
    let ghost s0 = region_steps(*b);
    let mut c = match open_int_choice(b, condition, when_false, when_true) {
        Ok(c) => c,
        Err(e) => return Err(build_error(e)),
    };
    let ghost v0 = choice_view(c);
    let (k, first, _second) = match open_case(&mut c, 0) {
        Ok(p) => p,
        Err(e) => return Err(build_error(e)),
    };
    let ghost steps0 = case_view(k).steps;
    let ghost ins0 = seq![first, _second];
    proof {
        lemma_begins(v0.around, steps0, v0.sig, ins0);
        lemma_hands_on(v0.around, steps0, v0.sig, ins0, 0);
        assert(ins0[0] == first);
    }
    let outputs = vec![first];
    proof {
        assert(outputs@ =~= seq![first]);
    }
    match finish_case(k, outputs) {
        Ok(()) => {},
        Err(e) => return Err(build_error(e)),
    }
    let (k, _first, second) = match open_case(&mut c, 1) {
        Ok(p) => p,
        Err(e) => return Err(build_error(e)),
    };
    let ghost steps1 = case_view(k).steps;
    let ghost ins1 = seq![_first, second];
    proof {
        lemma_begins(v0.around, steps1, v0.sig, ins1);
        lemma_hands_on(v0.around, steps1, v0.sig, ins1, 1);
        assert(ins1[1] == second);
    }
    let outputs = vec![second];
    proof {
        assert(outputs@ =~= seq![second]);
    }
    match finish_case(k, outputs) {
        Ok(()) => {},
        Err(e) => return Err(build_error(e)),
    }
    match close_choice(c) {
        Ok(outputs) => {
            let w = outputs[0];
            proof {
                let cases = v0.cases;
                assert(cases.len() == 2);
                assert(cases[0] == steps0.push(step(Op::Output, seq![first], seq![])));
                assert(cases[1] == steps1.push(step(Op::Output, seq![second], seq![])));
                let op = Op::Conditional { sig: v0.sig, cases };
                let ins = seq![condition, when_false, when_true];
                let s1 = region_steps(*b);
                lemma_adds(Seq::empty(), s0, s1, op, ins, v0.outputs);
                assert(v0.outputs[0] == w);
                if wire_type(s0, condition) is Bool && wire_type(s0, when_false) is Int && wire_type(
                    s0,
                    when_true,
                ) is Int {
                    assert(input_types(op) =~= seq![Ty::Bool, Ty::Int, Ty::Int]);
                    assert(Seq::<Step>::empty() + s0 =~= s0);
                    assert(fits(Seq::empty(), s0, step(op, ins, v0.outputs)));
                }
                assert forall|env: Map<Wire, Val>| #[trigger] run(s1, env)[w] == select_on(
                    run(s0, env)[condition],
                    run(s0, env)[when_false],
                    run(s0, env)[when_true],
                ) by {
                    let vals = Seq::new(ins.len(), |j: int| run(s0, env)[ins[j]]);
                    assert(run(s1, env)[v0.outputs[0]] == value_at(
                        results(op, vals, run(s0, env)),
                        0,
                    ));
                    let rest = vals.skip(1);
                    assert(value_at(vals, 0) == run(s0, env)[condition]);
                    assert(value_at(rest, 0) == run(s0, env)[when_false]);
                    assert(value_at(rest, 1) == run(s0, env)[when_true]);
                    assert(region_results(cases[0], rest, run(s0, env)) == seq![value_at(rest, 0)]);
                    assert(region_results(cases[1], rest, run(s0, env)) == seq![value_at(rest, 1)]);
                }
            }
            Ok(w)
        },
        Err(e) => Err(build_error(e)),
    }
}

fn int_constant(b: &mut DFGBuilder<Hugr>, value: i64) -> (w: Wire)
    ensures
        grows(region_steps(*old(b)), region_steps(*final(b))),
        conditionals(region_steps(*final(b))) == conditionals(region_steps(*old(b))),
        has_type(region_steps(*final(b)), w, Ty::Int),
        region_steps(*old(b)).len() > 0 ==> keeps_sound(
            region_steps(*old(b)),
            region_steps(*final(b)),
        ),
        forall|env: Map<Wire, Val>| #[trigger]
            run(region_steps(*final(b)), env)[w] == Val::Int(value as int),
{
    let ghost s0 = region_steps(*b);
    let w = load_int(b, value);
    proof {
        lemma_adds(
            Seq::empty(),
            s0,
            region_steps(*b),
            Op::LoadInt(value as int),
            seq![],
            seq![w],
        );
        assert(seq![w][0] == w);
    }
    w
}

fn bool_constant(b: &mut DFGBuilder<Hugr>, value: bool) -> (w: Wire)
    ensures
        grows(region_steps(*old(b)), region_steps(*final(b))),
        conditionals(region_steps(*final(b))) == conditionals(region_steps(*old(b))),
        has_type(region_steps(*final(b)), w, Ty::Bool),
        region_steps(*old(b)).len() > 0 ==> keeps_sound(
            region_steps(*old(b)),
            region_steps(*final(b)),
        ),
        forall|env: Map<Wire, Val>| #[trigger]
            run(region_steps(*final(b)), env)[w] == Val::Bool(value),
{
    let ghost s0 = region_steps(*b);
    let w = load_bool(b, value);
    proof {
        lemma_adds(Seq::empty(), s0, region_steps(*b), Op::LoadBool(value), seq![], seq![w]);
        assert(seq![w][0] == w);
    }
    w
}

fn binary_bool(b: &mut DFGBuilder<Hugr>, op: BoolOp, lhs: Wire, rhs: Wire) -> (r: Result<Wire>)
    requires
        known(region_steps(*old(b)), lhs),
        known(region_steps(*old(b)), rhs),
    ensures
        r is Ok <==> can_read(Seq::empty(), region_steps(*old(b)), seq![lhs, rhs]),
        r matches Err(e) ==> e is Hugr,
        r matches Ok(w) ==> {
            &&& grows(region_steps(*old(b)), region_steps(*final(b)))
            &&& conditionals(region_steps(*final(b))) == conditionals(
                region_steps(*old(b)),
            )
            &&& has_type(region_steps(*final(b)), w, Ty::Bool)
            &&& wire_type(region_steps(*old(b)), lhs) is Bool && wire_type(
                region_steps(*old(b)),
                rhs,
            ) is Bool ==> keeps_sound(region_steps(*old(b)), region_steps(*final(b)))
            &&& forall|env: Map<Wire, Val>| #[trigger]
                run(region_steps(*final(b)), env)[w] == bool_op_on(
                    op,
                    run(region_steps(*old(b)), env)[lhs],
                    run(region_steps(*old(b)), env)[rhs],
                )
        },
{
    let ghost s0 = region_steps(*b);
    match binary_bool_op(b, op, lhs, rhs) {
        Ok(w) => {
            proof {
                let ins = seq![lhs, rhs];
                lemma_adds(Seq::empty(), s0, region_steps(*b), Op::Bool(op), ins, seq![w]);
                assert(seq![w][0] == w);
            }
            Ok(w)
        },
        Err(e) => Err(build_error(e)),
    }
}

fn negate(b: &mut DFGBuilder<Hugr>, value: Wire) -> (r: Result<Wire>)
    requires
        known(region_steps(*old(b)), value),
    ensures
        r is Ok <==> can_read(Seq::empty(), region_steps(*old(b)), seq![value]),
        r matches Err(e) ==> e is Hugr,
        r matches Ok(w) ==> {
            &&& grows(region_steps(*old(b)), region_steps(*final(b)))
            &&& conditionals(region_steps(*final(b))) == conditionals(
                region_steps(*old(b)),
            )
            &&& has_type(region_steps(*final(b)), w, Ty::Bool)
            &&& wire_type(region_steps(*old(b)), value) is Bool ==> keeps_sound(
                region_steps(*old(b)),
                region_steps(*final(b)),
            )
            &&& forall|env: Map<Wire, Val>| #[trigger]
                run(region_steps(*final(b)), env)[w] == not_on(
                    run(region_steps(*old(b)), env)[value],
                )
        },
{
    let ghost s0 = region_steps(*b);
    match not_op(b, value) {
        Ok(w) => {
            proof {
                lemma_adds(Seq::empty(), s0, region_steps(*b), Op::Not, seq![value], seq![w]);
                assert(seq![w][0] == w);
            }
            Ok(w)
        },
        Err(e) => Err(build_error(e)),
    }
}

/// A division rounded up or down, computed from the quotient, the remainder and their signs.
pub open spec fn rounded(a: Val, b: Val, ceiling: bool) -> Val {
    let quotient = int_op_on(IntOp::Div, a, b);
    let remainder = int_op_on(IntOp::Mod, a, b);
    select_on(
        adjusts(remainder, b, ceiling),
        quotient,
        int_op_on(
            if ceiling {
                IntOp::Add
            } else {
                IntOp::Sub
            },
            quotient,
            Val::Int(1),
        ),
    )
}

/// Whether a quotient has to be changed by one, computed from the remainder and the signs.
pub open spec fn adjusts(remainder: Val, b: Val, ceiling: bool) -> Val {
    let zero = Val::Int(0);
    let signs_differ = bool_op_on(
        BoolOp::Xor,
        int_op_on(IntOp::Lt, remainder, zero),
        int_op_on(IntOp::Lt, b, zero),
    );
    bool_op_on(
        BoolOp::And,
        int_op_on(IntOp::Ne, remainder, zero),
        if ceiling {
            not_on(signs_differ)
        } else {
            signs_differ
        },
    )
}

/// The number one, and whether a quotient has to be changed by it.
#[verifier::rlimit(90)]
#[verifier::spinoff_prover]
fn adjustment(b: &mut DFGBuilder<Hugr>, remainder: Wire, rhs: Wire, ceiling: bool) -> (r: Result<
    (Wire, Wire),
>)
    requires
        has_type(region_steps(*old(b)), remainder, Ty::Int),
        known(region_steps(*old(b)), rhs),
        copyable(wire_type(region_steps(*old(b)), rhs)),
    ensures
        r is Ok,
        r matches Ok((one, adjust)) ==> {
            &&& grows(region_steps(*old(b)), region_steps(*final(b)))
            &&& conditionals(region_steps(*final(b))) == conditionals(
                region_steps(*old(b)),
            )
            &&& has_type(region_steps(*final(b)), one, Ty::Int)
            &&& has_type(region_steps(*final(b)), adjust, Ty::Bool)
            &&& region_steps(*old(b)).len() > 0 && wire_type(
                region_steps(*old(b)),
                rhs,
            ) is Int ==> keeps_sound(region_steps(*old(b)), region_steps(*final(b)))
            &&& forall|env: Map<Wire, Val>| #[trigger]
                run(region_steps(*final(b)), env)[one] == Val::Int(1)
            &&& forall|env: Map<Wire, Val>| #[trigger]
                run(region_steps(*final(b)), env)[adjust] == adjusts(
                    run(region_steps(*old(b)), env)[remainder],
                    run(region_steps(*old(b)), env)[rhs],
                    ceiling,
                )
        },
{
    let ghost s0 = region_steps(*b);
    let zero = int_constant(b, 0);
    let ghost s3 = region_steps(*b);
    proof {
        lemma_keeps_all(s0, s3);
    }
    let one = int_constant(b, 1);
    let ghost s4 = region_steps(*b);
    proof {
        lemma_keeps_all(s3, s4);
        lemma_grows_trans(s0, s3, s4);
    }
    let has_remainder = match binary_int(b, IntOp::Ne, remainder, zero) {
        Ok(w) => w,
        Err(e) => return Err(e),
    };
    let ghost s5 = region_steps(*b);
    proof {
        lemma_keeps_all(s4, s5);
        lemma_grows_trans(s0, s4, s5);
    }
    let remainder_negative = match binary_int(b, IntOp::Lt, remainder, zero) {
        Ok(w) => w,
        Err(e) => return Err(e),
    };
    let ghost s6 = region_steps(*b);
    proof {
        lemma_keeps_all(s5, s6);
        lemma_grows_trans(s0, s5, s6);
    }
    let divisor_negative = match binary_int(b, IntOp::Lt, rhs, zero) {
        Ok(w) => w,
        Err(e) => return Err(e),
    };
    let ghost s7 = region_steps(*b);
    proof {
        lemma_keeps_all(s6, s7);
        lemma_grows_trans(s0, s6, s7);
    }
    let signs_differ = match binary_bool(b, BoolOp::Xor, remainder_negative, divisor_negative) {
        Ok(w) => w,
        Err(e) => return Err(e),
    };
    let ghost s8 = region_steps(*b);
    proof {
        lemma_keeps_all(s7, s8);
        lemma_grows_trans(s0, s7, s8);
    }
    let direction = if ceiling {
        match negate(b, signs_differ) {
            Ok(w) => w,
            Err(e) => return Err(e),
        }
    } else {
        proof {
            lemma_grows_refl(s8);
        }
        signs_differ
    };
    let ghost s9 = region_steps(*b);
    proof {
        lemma_keeps_all(s8, s9);
        lemma_grows_trans(s0, s8, s9);
    }
    let should_adjust = match binary_bool(b, BoolOp::And, has_remainder, direction) {
        Ok(w) => w,
        Err(e) => return Err(e),
    };
    let ghost s10 = region_steps(*b);
    proof {
        lemma_keeps_all(s9, s10);
        lemma_grows_trans(s0, s9, s10);
    }
    Ok((one, should_adjust))
}

/// A division rounded up or down.
#[verifier::rlimit(80)]
#[verifier::spinoff_prover]
pub fn rounded_div(b: &mut DFGBuilder<Hugr>, lhs: Wire, rhs: Wire, ceiling: bool) -> (r: Result<Wire>)
    requires
        known(region_steps(*old(b)), lhs),
        known(region_steps(*old(b)), rhs),
    ensures
        r is Ok <==> copyable(wire_type(region_steps(*old(b)), lhs)) && copyable(
            wire_type(region_steps(*old(b)), rhs),
        ),
        r matches Err(e) ==> e is Hugr,
        r matches Ok(w) ==> {
            &&& grows(region_steps(*old(b)), region_steps(*final(b)))
            &&& conditionals(region_steps(*final(b))) == conditionals(
                region_steps(*old(b)),
            ) + 1
            &&& has_type(region_steps(*final(b)), w, Ty::Int)
            &&& wire_type(region_steps(*old(b)), lhs) is Int && wire_type(
                region_steps(*old(b)),
                rhs,
            ) is Int ==> keeps_sound(region_steps(*old(b)), region_steps(*final(b)))
            &&& forall|env: Map<Wire, Val>| #[trigger]
                run(region_steps(*final(b)), env)[w] == rounded(
                    run(region_steps(*old(b)), env)[lhs],
                    run(region_steps(*old(b)), env)[rhs],
                    ceiling,
                )
        },
{
    let ghost s0 = region_steps(*b);
    let quotient = match binary_int(b, IntOp::Div, lhs, rhs) {
        Ok(w) => w,
        Err(e) => return Err(e),
    };
    let ghost s1 = region_steps(*b);
    proof {
        lemma_keeps_all(s0, s1);
    }
    let remainder = match binary_int(b, IntOp::Mod, lhs, rhs) {
        Ok(w) => w,
        Err(e) => return Err(e),
    };
    let ghost s2 = region_steps(*b);
    proof {
        lemma_keeps_all(s1, s2);
        lemma_grows_trans(s0, s1, s2);
    }
    let (one, should_adjust) = match adjustment(b, remainder, rhs, ceiling) {
        Ok(p) => p,
        Err(e) => return Err(e),
    };
    let ghost s10 = region_steps(*b);
    proof {
        lemma_keeps_all(s2, s10);
        lemma_grows_trans(s0, s2, s10);
    }
    let adjusted = match binary_int(
        b,
        if ceiling {
            IntOp::Add
        } else {
            IntOp::Sub
        },
        quotient,
        one,
    ) {
        Ok(w) => w,
        Err(e) => return Err(e),
    };
    let ghost s11 = region_steps(*b);
    proof {
        lemma_keeps_all(s10, s11);
        lemma_grows_trans(s0, s10, s11);
    }
    let r = select_int(b, should_adjust, quotient, adjusted);
    proof {
        if r is Ok {
            lemma_grows_trans(s0, s11, region_steps(*b));
        }
    }
    r
}

/// The values of named variables.
pub open spec fn var_values(
    variables: Seq<(String, Wire)>,
    steps: Seq<Step>,
    env: Map<Wire, Val>,
) -> Seq<(Seq<char>, Val)> {
    Seq::new(variables.len(), |i: int| (variables[i].0@, run(steps, env)[variables[i].1]))
}

/// The value of a variable; the latest entry under its name counts.
pub open spec fn var_value(vars: Seq<(Seq<char>, Val)>, name: Seq<char>) -> Option<Val>
    decreases vars.len(),
{
    if vars.len() == 0 {
        None
    } else if vars.last().0 == name {
        Some(vars.last().1)
    } else {
        var_value(vars.drop_last(), name)
    }
}

/// Some entry has this name.
pub open spec fn bound(variables: Seq<(String, Wire)>, name: Seq<char>) -> bool {
    exists|i: int| 0 <= i < variables.len() && (#[trigger] variables[i]).0@ == name
}

/// Every variable is bound, and every minimum and maximum has an operand.
pub open spec fn closed_index(m: IndexModel, variables: Seq<(String, Wire)>) -> bool
    decreases m,
{
    match m {
        IndexModel::Constant(_) => true,
        IndexModel::Variable(s) => bound(variables, s),
        IndexModel::Add(l, r) => closed_index(*l, variables) && closed_index(*r, variables),
        IndexModel::Sub(l, r) => closed_index(*l, variables) && closed_index(*r, variables),
        IndexModel::Mul(l, r) => closed_index(*l, variables) && closed_index(*r, variables),
        IndexModel::Div(l, r) => closed_index(*l, variables) && closed_index(*r, variables),
        IndexModel::FloorDiv(l, r) => closed_index(*l, variables) && closed_index(*r, variables),
        IndexModel::CeilDiv(l, r) => closed_index(*l, variables) && closed_index(*r, variables),
        IndexModel::Mod(l, r) => closed_index(*l, variables) && closed_index(*r, variables),
        IndexModel::Min(v) => v.len() > 0 && forall|i: int|
            0 <= i < v.len() ==> closed_index(#[trigger] v[i], variables),
        IndexModel::Max(v) => v.len() > 0 && forall|i: int|
            0 <= i < v.len() ==> closed_index(#[trigger] v[i], variables),
    }
}

/// The 64-bit value of an index expression.
pub open spec fn index_value64(m: IndexModel, vars: Seq<(Seq<char>, Val)>) -> Val
    decreases m,
{
    match m {
        IndexModel::Constant(n) => Val::Int(n),
        IndexModel::Variable(s) => match var_value(vars, s) {
            Some(v) => v,
            None => Val::Other,
        },
        IndexModel::Add(l, r) => int_op_on(
            IntOp::Add,
            index_value64(*l, vars),
            index_value64(*r, vars),
        ),
        IndexModel::Sub(l, r) => int_op_on(
            IntOp::Sub,
            index_value64(*l, vars),
            index_value64(*r, vars),
        ),
        IndexModel::Mul(l, r) => int_op_on(
            IntOp::Mul,
            index_value64(*l, vars),
            index_value64(*r, vars),
        ),
        IndexModel::Div(l, r) => int_op_on(
            IntOp::Div,
            index_value64(*l, vars),
            index_value64(*r, vars),
        ),
        IndexModel::FloorDiv(l, r) => rounded(
            index_value64(*l, vars),
            index_value64(*r, vars),
            false,
        ),
        IndexModel::CeilDiv(l, r) => rounded(
            index_value64(*l, vars),
            index_value64(*r, vars),
            true,
        ),
        IndexModel::Mod(l, r) => int_op_on(
            IntOp::Mod,
            index_value64(*l, vars),
            index_value64(*r, vars),
        ),
        IndexModel::Min(v) => folded_value64(IntOp::Min, v, vars),
        IndexModel::Max(v) => folded_value64(IntOp::Max, v, vars),
    }
}

/// The values folded from the left.
pub open spec fn folded_value64(op: IntOp, v: Seq<IndexModel>, vars: Seq<(Seq<char>, Val)>) -> Val
    decreases v,
{
    if v.len() == 0 {
        Val::Other
    } else if v.len() == 1 {
        index_value64(v[0], vars)
    } else {
        int_op_on(op, folded_value64(op, v.drop_last(), vars), index_value64(v.last(), vars))
    }
}

/// Every variable has a wire of the region that carries an integer.
pub open spec fn vars_int(variables: Seq<(String, Wire)>, steps: Seq<Step>) -> bool {
    forall|i: int| 0 <= i < variables.len() ==> has_type(steps, (#[trigger] variables[i]).1, Ty::Int)
}

/// Why an index expression cannot be lowered: the first variable that is not bound, or minimum or
/// maximum without an operand, from left to right.
pub open spec fn index_failure(m: IndexModel, variables: Seq<(String, Wire)>) -> Option<Seq<char>>
    decreases m,
{
    match m {
        IndexModel::Constant(_) => None,
        IndexModel::Variable(s) => if bound(variables, s) {
            None
        } else {
            Some("scheduled index variable '"@ + s + "' is not in scope"@)
        },
        IndexModel::Add(l, r) => earlier(
            index_failure(*l, variables),
            index_failure(*r, variables),
        ),
        IndexModel::Sub(l, r) => earlier(
            index_failure(*l, variables),
            index_failure(*r, variables),
        ),
        IndexModel::Mul(l, r) => earlier(
            index_failure(*l, variables),
            index_failure(*r, variables),
        ),
        IndexModel::Div(l, r) => earlier(
            index_failure(*l, variables),
            index_failure(*r, variables),
        ),
        IndexModel::FloorDiv(l, r) => earlier(
            index_failure(*l, variables),
            index_failure(*r, variables),
        ),
        IndexModel::CeilDiv(l, r) => earlier(
            index_failure(*l, variables),
            index_failure(*r, variables),
        ),
        IndexModel::Mod(l, r) => earlier(
            index_failure(*l, variables),
            index_failure(*r, variables),
        ),
        IndexModel::Min(v) => variadic_failure(v, variables),
        IndexModel::Max(v) => variadic_failure(v, variables),
    }
}

pub open spec fn variadic_failure(
    v: Seq<IndexModel>,
    variables: Seq<(String, Wire)>,
) -> Option<Seq<char>>
    decreases v, 1int,
{
    if v.len() == 0 {
        Some("min/max requires at least one operand"@)
    } else {
        first_failure(v, variables)
    }
}

pub open spec fn first_failure(
    v: Seq<IndexModel>,
    variables: Seq<(String, Wire)>,
) -> Option<Seq<char>>
    decreases v, 0int,
{
    if v.len() == 0 {
        None
    } else {
        earlier(first_failure(v.drop_last(), variables), index_failure(v.last(), variables))
    }
}

pub open spec fn earlier(first: Option<Seq<char>>, second: Option<Seq<char>>) -> Option<Seq<char>> {
    if first is Some {
        first
    } else {
        second
    }
}

/// An index expression can be lowered exactly where every variable in it is bound and every minimum
/// and maximum has an operand, at any depth.
pub proof fn closed_expressions_are_lowered(m: IndexModel, variables: Seq<(String, Wire)>)
    ensures
        closed_index(m, variables) <==> index_failure(m, variables) is None,
    decreases m,
{
    if let Some((l, r)) = operands(m) {
        closed_expressions_are_lowered(l, variables);
        closed_expressions_are_lowered(r, variables);
    } else if let IndexModel::Min(v) = m {
        lemma_first_failure(v, variables);
        assert(index_failure(m, variables) == variadic_failure(v, variables));
    } else if let IndexModel::Max(v) = m {
        lemma_first_failure(v, variables);
        assert(index_failure(m, variables) == variadic_failure(v, variables));
    }
}

proof fn lemma_first_failure(v: Seq<IndexModel>, variables: Seq<(String, Wire)>)
    ensures
        first_failure(v, variables) is None <==> forall|i: int|
            0 <= i < v.len() ==> closed_index(#[trigger] v[i], variables),
    decreases v,
{
    if v.len() > 0 {
        let shorter = v.drop_last();
        lemma_first_failure(shorter, variables);
        closed_expressions_are_lowered(v.last(), variables);
        if first_failure(v, variables) is None {
            assert forall|i: int| 0 <= i < v.len() implies closed_index(
                #[trigger] v[i],
                variables,
            ) by {
                if i < shorter.len() {
                    assert(shorter[i] == v[i]);
                }
            }
        } else if forall|i: int| 0 <= i < v.len() ==> closed_index(#[trigger] v[i], variables) {
            assert forall|i: int| 0 <= i < shorter.len() implies closed_index(
                #[trigger] shorter[i],
                variables,
            ) by {
                assert(shorter[i] == v[i]);
            }
        }
    }
}

/// What a failed lowering returns.
pub open spec fn lowering_error<T>(r: Result<T>, failure: Option<Seq<char>>) -> bool {
    &&& r is Err <==> failure is Some
    &&& r matches Err(e) ==> failure matches Some(t) && e@ == Failure::Hugr(t)
}

/// How many divisions in the expression are rounded; each takes a choice.
pub open spec fn divisions(m: IndexModel) -> nat
    decreases m,
{
    match m {
        IndexModel::Constant(_) => 0,
        IndexModel::Variable(_) => 0,
        IndexModel::Add(l, r) => divisions(*l) + divisions(*r),
        IndexModel::Sub(l, r) => divisions(*l) + divisions(*r),
        IndexModel::Mul(l, r) => divisions(*l) + divisions(*r),
        IndexModel::Div(l, r) => divisions(*l) + divisions(*r),
        IndexModel::FloorDiv(l, r) => divisions(*l) + divisions(*r) + 1,
        IndexModel::CeilDiv(l, r) => divisions(*l) + divisions(*r) + 1,
        IndexModel::Mod(l, r) => divisions(*l) + divisions(*r),
        IndexModel::Min(v) => all_divisions(v),
        IndexModel::Max(v) => all_divisions(v),
    }
}

pub open spec fn all_divisions(v: Seq<IndexModel>) -> nat
    decreases v,
{
    if v.len() == 0 {
        0
    } else {
        all_divisions(v.drop_last()) + divisions(v.last())
    }
}

/// How many divisions in the operands of a binary expression are rounded.
pub open spec fn operand_divisions(m: IndexModel) -> nat {
    match operands(m) {
        Some((l, r)) => divisions(l) + divisions(r),
        None => 0,
    }
}

/// Lowering an expression succeeded: the wire carries its value, and nothing else has changed.
pub open spec fn carries_index(
    before: Seq<Step>,
    after: Seq<Step>,
    variables: Seq<(String, Wire)>,
    m: IndexModel,
    w: Wire,
) -> bool {
    &&& grows(before, after)
    &&& conditionals(after) == conditionals(before) + divisions(m)
    &&& has_type(after, w, Ty::Int)
    &&& before.len() > 0 ==> keeps_sound(before, after)
    &&& forall|env: Map<Wire, Val>| #[trigger]
        run(after, env)[w] == index_value64(m, var_values(variables, before, env))
}

proof fn lemma_vars_keep(variables: Seq<(String, Wire)>, before: Seq<Step>, after: Seq<Step>)
    requires
        grows(before, after),
        vars_int(variables, before),
    ensures
        vars_int(variables, after),
        forall|env: Map<Wire, Val>| #[trigger]
            var_values(variables, after, env) == var_values(variables, before, env),
{
    lemma_keeps_all(before, after);
    assert forall|env: Map<Wire, Val>| #[trigger] var_values(variables, after, env) == var_values(
        variables,
        before,
        env,
    ) by {
        assert(var_values(variables, after, env) =~= var_values(variables, before, env));
    }
}

fn find_wire(variables: &Vec<(String, Wire)>, name: &str) -> (r: Option<Wire>)
    ensures
        match r {
            None => !bound(variables@, name@),
            Some(w) => {
                &&& bound(variables@, name@)
                &&& exists|i: int| 0 <= i < variables@.len() && (#[trigger] variables@[i]).1 == w
                &&& forall|steps: Seq<Step>, env: Map<Wire, Val>|
                    var_value(#[trigger] var_values(variables@, steps, env), name@) == Some(
                        run(steps, env)[w],
                    )
            },
        },
{
    let mut i: usize = variables.len();
    proof {
        assert forall|steps: Seq<Step>, env: Map<Wire, Val>| var_value(
            #[trigger] var_values(variables@, steps, env),
            name@,
        ) == var_value(var_values(variables@, steps, env).take(i as int), name@) by {
            assert(var_values(variables@, steps, env).take(i as int) =~= var_values(
                variables@,
                steps,
                env,
            ));
        }
    }
    while i > 0
        invariant
            i <= variables@.len(),
            forall|j: int| i <= j < variables@.len() ==> (#[trigger] variables@[j]).0@ != name@,
            forall|steps: Seq<Step>, env: Map<Wire, Val>|
                var_value(#[trigger] var_values(variables@, steps, env), name@) == var_value(
                    var_values(variables@, steps, env).take(i as int),
                    name@,
                ),
        decreases i,
    {
        i -= 1;
        proof {
            assert forall|steps: Seq<Step>, env: Map<Wire, Val>| #[trigger]
                var_values(variables@, steps, env).take(i + 1).drop_last() == var_values(
                    variables@,
                    steps,
                    env,
                ).take(i as int) by {
                assert(var_values(variables@, steps, env).take(i + 1).drop_last() =~= var_values(
                    variables@,
                    steps,
                    env,
                ).take(i as int));
            }
        }
        if str_eq(variables[i].0.as_str(), name) {
            let w = variables[i].1;
            proof {
                assert forall|steps: Seq<Step>, env: Map<Wire, Val>| var_value(
                    #[trigger] var_values(variables@, steps, env),
                    name@,
                ) == Some(run(steps, env)[w]) by {
                    let all = var_values(variables@, steps, env);
                    assert(all.take(i + 1).last() == all[i as int]);
                }
            }
            return Some(w);
        }
        proof {
            assert forall|steps: Seq<Step>, env: Map<Wire, Val>| var_value(
                #[trigger] var_values(variables@, steps, env),
                name@,
            ) == var_value(var_values(variables@, steps, env).take(i as int), name@) by {
                let all = var_values(variables@, steps, env);
                assert(all.take(i + 1).last() == all[i as int]);
                assert(all.take(i + 1).drop_last() == all.take(i as int));
            }
        }
    }
    None
}

/// The operands of a binary expression.
pub open spec fn operands(m: IndexModel) -> Option<(IndexModel, IndexModel)> {
    match m {
        IndexModel::Add(l, r) => Some((*l, *r)),
        IndexModel::Sub(l, r) => Some((*l, *r)),
        IndexModel::Mul(l, r) => Some((*l, *r)),
        IndexModel::Div(l, r) => Some((*l, *r)),
        IndexModel::FloorDiv(l, r) => Some((*l, *r)),
        IndexModel::CeilDiv(l, r) => Some((*l, *r)),
        IndexModel::Mod(l, r) => Some((*l, *r)),
        _ => None,
    }
}

/// Lowers the operands of a binary expression, the left one first.
fn lower_operands(
    b: &mut DFGBuilder<Hugr>,
    expression: &IndexExpr,
    variables: &Vec<(String, Wire)>,
) -> (r: Result<(Wire, Wire)>)
    requires
        vars_int(variables@, region_steps(*old(b))),
        operands(expression@) is Some,
    ensures
        lowering_error(r, index_failure(expression@, variables@)),
        r matches Ok((l, r)) ==> {
            let (lhs, rhs) = operands(expression@)->Some_0;
            &&& grows(region_steps(*old(b)), region_steps(*final(b)))
            &&& conditionals(region_steps(*final(b))) == conditionals(
                region_steps(*old(b)),
            ) + operand_divisions(expression@)
            &&& region_steps(*old(b)).len() > 0 ==> keeps_sound(
                region_steps(*old(b)),
                region_steps(*final(b)),
            )
            &&& has_type(region_steps(*final(b)), l, Ty::Int)
            &&& has_type(region_steps(*final(b)), r, Ty::Int)
            &&& forall|env: Map<Wire, Val>| #[trigger]
                run(region_steps(*final(b)), env)[l] == index_value64(
                    lhs,
                    var_values(variables@, region_steps(*old(b)), env),
                )
            &&& forall|env: Map<Wire, Val>| #[trigger]
                run(region_steps(*final(b)), env)[r] == index_value64(
                    rhs,
                    var_values(variables@, region_steps(*old(b)), env),
                )
        },
    decreases expression, 0int,
{
    let (lhs, rhs) = match expression {
        IndexExpr::Add(l, r)
        | IndexExpr::Sub(l, r)
        | IndexExpr::Mul(l, r)
        | IndexExpr::Div(l, r)
        | IndexExpr::FloorDiv(l, r)
        | IndexExpr::CeilDiv(l, r)
        | IndexExpr::Mod(l, r) => (l, r),
        _ => return Err(CodegenError::Hugr(String::new())),
    };
    let ghost s0 = region_steps(*b);
    let l = match lower_index_expr(b, lhs, variables) {
        Ok(w) => w,
        Err(e) => return Err(e),
    };
    let ghost s1 = region_steps(*b);
    proof {
        lemma_vars_keep(variables@, s0, s1);
    }
    let r = match lower_index_expr(b, rhs, variables) {
        Ok(w) => w,
        Err(e) => return Err(e),
    };
    proof {
        let s2 = region_steps(*b);
        lemma_keeps_all(s1, s2);
        lemma_grows_trans(s0, s1, s2);
        assert forall|env: Map<Wire, Val>| #[trigger] run(s2, env)[r] == index_value64(
            rhs@,
            var_values(variables@, s0, env),
        ) by {
            assert(var_values(variables@, s1, env) == var_values(variables@, s0, env));
        }
    }
    Ok((l, r))
}

/// What fails early fails on the whole.
proof fn lemma_failure_prefix(v: Seq<IndexModel>, n: int, variables: Seq<(String, Wire)>)
    requires
        0 <= n <= v.len(),
    ensures
        first_failure(v.take(n), variables) is Some ==> first_failure(v, variables)
            == first_failure(v.take(n), variables),
    decreases v.len() - n,
{
    if n < v.len() {
        lemma_failure_prefix(v, n + 1, variables);
        assert(v.take(n + 1).drop_last() =~= v.take(n));
    } else {
        assert(v.take(n) =~= v);
    }
}

/// Lowers a minimum or a maximum.
#[verifier::rlimit(80)]
#[verifier::spinoff_prover]
fn lower_variadic(
    b: &mut DFGBuilder<Hugr>,
    op: IntOp,
    values: &Vec<IndexExpr>,
    variables: &Vec<(String, Wire)>,
) -> (r: Result<Wire>)
    requires
        vars_int(variables@, region_steps(*old(b))),
        op == IntOp::Min || op == IntOp::Max,
    ensures
        lowering_error(r, variadic_failure(index_models(values@), variables@)),
        r matches Ok(w) ==> {
            &&& grows(region_steps(*old(b)), region_steps(*final(b)))
            &&& conditionals(region_steps(*final(b))) == conditionals(
                region_steps(*old(b)),
            ) + all_divisions(index_models(values@))
            &&& region_steps(*old(b)).len() > 0 ==> keeps_sound(
                region_steps(*old(b)),
                region_steps(*final(b)),
            )
            &&& has_type(region_steps(*final(b)), w, Ty::Int)
            &&& forall|env: Map<Wire, Val>| #[trigger]
                run(region_steps(*final(b)), env)[w] == folded_value64(
                    op,
                    index_models(values@),
                    var_values(variables@, region_steps(*old(b)), env),
                )
        },
    decreases values, 0int,
{
    if values.len() == 0 {
        return Err(CodegenError::Hugr("min/max requires at least one operand".to_owned()));
    }
    let ghost s0 = region_steps(*b);
    let ghost all = index_models(values@);
    proof {
        assert(all[0] == values@[0]@);
        assert(all.take(1)[0] == all[0]);
        assert(all.take(1).drop_last() =~= Seq::<IndexModel>::empty());
        assert(first_failure(Seq::<IndexModel>::empty(), variables@) is None);
        assert(all.take(1).last() == all[0]);
        assert(first_failure(all.take(1), variables@) == index_failure(all[0], variables@));
        assert(all_divisions(Seq::<IndexModel>::empty()) == 0);
        assert(all_divisions(all.take(1)) == divisions(all[0]));
        lemma_failure_prefix(all, 1, variables@);
    }
    let mut result = match lower_index_expr(b, &values[0], variables) {
        Ok(w) => w,
        Err(e) => return Err(e),
    };
    let mut i: usize = 1;
    while i < values.len()
        invariant
            1 <= i <= values@.len(),
            all == index_models(values@),
            op == IntOp::Min || op == IntOp::Max,
            vars_int(variables@, s0),
            grows(s0, region_steps(*b)),
            s0.len() > 0 ==> keeps_sound(s0, region_steps(*b)),
            has_type(region_steps(*b), result, Ty::Int),
            first_failure(all.take(i as int), variables@) is None,
            conditionals(region_steps(*b)) == conditionals(s0) + all_divisions(all.take(i as int)),
            forall|env: Map<Wire, Val>| #[trigger]
                run(region_steps(*b), env)[result] == folded_value64(
                    op,
                    all.take(i as int),
                    var_values(variables@, s0, env),
                ),
        decreases values@.len() - i,
    {
        let ghost s1 = region_steps(*b);
        let ghost acc = result;
        proof {
            lemma_vars_keep(variables@, s0, s1);
            assert(all.take(i + 1).drop_last() =~= all.take(i as int));
            assert(all.take(i + 1).last() == all[i as int]);
            assert(all[i as int] == values@[i as int]@);
            lemma_failure_prefix(all, i + 1, variables@);
        }
        let value = match lower_index_expr(b, &values[i], variables) {
            Ok(w) => w,
            Err(e) => return Err(e),
        };
        let ghost s2 = region_steps(*b);
        proof {
            lemma_keeps_all(s1, s2);
            lemma_grows_trans(s0, s1, s2);
        }
        result = match binary_int(b, op, result, value) {
            Ok(w) => w,
            Err(e) => return Err(e),
        };
        proof {
            let s3 = region_steps(*b);
            lemma_grows_trans(s0, s2, s3);
            assert forall|env: Map<Wire, Val>| #[trigger] run(s3, env)[result] == folded_value64(
                op,
                all.take(i + 1),
                var_values(variables@, s0, env),
            ) by {
                assert(run(s2, env)[acc] == run(s1, env)[acc]);
                assert(run(s2, env)[value] == index_value64(
                    all[i as int],
                    var_values(variables@, s1, env),
                ));
                assert(var_values(variables@, s1, env) == var_values(variables@, s0, env));
            }
        }
        i += 1;
    }
    proof {
        assert(all.take(i as int) =~= all);
    }
    Ok(result)
}

/// Lowers an index expression to a wire that carries its value.
#[verifier::rlimit(80)]
#[verifier::spinoff_prover]
pub fn lower_index_expr(
    b: &mut DFGBuilder<Hugr>,
    expression: &IndexExpr,
    variables: &Vec<(String, Wire)>,
) -> (r: Result<Wire>)
    requires
        vars_int(variables@, region_steps(*old(b))),
    ensures
        r is Ok <==> closed_index(expression@, variables@),
        lowering_error(r, index_failure(expression@, variables@)),
        r matches Ok(w) ==> carries_index(
            region_steps(*old(b)),
            region_steps(*final(b)),
            variables@,
            expression@,
            w,
        ),
    decreases expression, 1int,
{
    let ghost s0 = region_steps(*b);
    proof {
        closed_expressions_are_lowered(expression@, variables@);
    }
    match expression {
        IndexExpr::Constant(value) => Ok(int_constant(b, *value)),
        IndexExpr::Variable(name) => match find_wire(variables, name.as_str()) {
            Some(w) => {
                proof {
                    lemma_grows_refl(s0);
                }
                Ok(w)
            },
            None => Err(
                CodegenError::Hugr(
                    cat3("scheduled index variable '", name.as_str(), "' is not in scope"),
                ),
            ),
        },
        IndexExpr::Min(values) => lower_variadic(b, IntOp::Min, values, variables),
        IndexExpr::Max(values) => lower_variadic(b, IntOp::Max, values, variables),
        _ => {
            let (l, r) = match lower_operands(b, expression, variables) {
                Ok(p) => p,
                Err(e) => return Err(e),
            };
            let ghost s1 = region_steps(*b);
            let res = match expression {
                IndexExpr::Add(_, _) => binary_int(b, IntOp::Add, l, r),
                IndexExpr::Sub(_, _) => binary_int(b, IntOp::Sub, l, r),
                IndexExpr::Mul(_, _) => binary_int(b, IntOp::Mul, l, r),
                IndexExpr::Div(_, _) => binary_int(b, IntOp::Div, l, r),
                IndexExpr::FloorDiv(_, _) => rounded_div(b, l, r, false),
                IndexExpr::CeilDiv(_, _) => rounded_div(b, l, r, true),
                _ => binary_int(b, IntOp::Mod, l, r),
            };
            proof {
                if res is Ok {
                    lemma_grows_trans(s0, s1, region_steps(*b));
                }
            }
            res
        },
    }
}

/// Every variable in the predicate is bound, and every minimum and maximum has an operand.
pub open spec fn closed_predicate(p: PredicateModel, variables: Seq<(String, Wire)>) -> bool
    decreases p,
{
    match p {
        PredicateModel::Compare { op, lhs, rhs } => closed_index(lhs, variables) && closed_index(
            rhs,
            variables,
        ),
        PredicateModel::And(v) => forall|i: int|
            0 <= i < v.len() ==> closed_predicate(#[trigger] v[i], variables),
        PredicateModel::Or(v) => forall|i: int|
            0 <= i < v.len() ==> closed_predicate(#[trigger] v[i], variables),
        PredicateModel::Not(p) => closed_predicate(*p, variables),
        PredicateModel::Constant(_) => true,
    }
}

/// Why a predicate cannot be lowered: what fails first inside it, from left to right.
pub open spec fn predicate_failure(p: PredicateModel, variables: Seq<(String, Wire)>) -> Option<
    Seq<char>,
>
    decreases p,
{
    match p {
        PredicateModel::Compare { op, lhs, rhs } => earlier(
            index_failure(lhs, variables),
            index_failure(rhs, variables),
        ),
        PredicateModel::And(v) => junction_failure(v, variables),
        PredicateModel::Or(v) => junction_failure(v, variables),
        PredicateModel::Not(p) => predicate_failure(*p, variables),
        PredicateModel::Constant(_) => None,
    }
}

pub open spec fn junction_failure(
    v: Seq<PredicateModel>,
    variables: Seq<(String, Wire)>,
) -> Option<Seq<char>>
    decreases v,
{
    if v.len() == 0 {
        None
    } else {
        earlier(
            junction_failure(v.drop_last(), variables),
            predicate_failure(v.last(), variables),
        )
    }
}

/// A predicate can be lowered exactly where every index expression in it can.
pub proof fn closed_predicates_are_lowered(p: PredicateModel, variables: Seq<(String, Wire)>)
    ensures
        closed_predicate(p, variables) <==> predicate_failure(p, variables) is None,
    decreases p,
{
    if let PredicateModel::Compare { op, lhs, rhs } = p {
        closed_expressions_are_lowered(lhs, variables);
        closed_expressions_are_lowered(rhs, variables);
    } else if let PredicateModel::And(v) = p {
        lemma_junction_failure(v, variables);
    } else if let PredicateModel::Or(v) = p {
        lemma_junction_failure(v, variables);
    } else if let PredicateModel::Not(q) = p {
        closed_predicates_are_lowered(*q, variables);
    }
}

proof fn lemma_junction_failure(v: Seq<PredicateModel>, variables: Seq<(String, Wire)>)
    ensures
        junction_failure(v, variables) is None <==> forall|i: int|
            0 <= i < v.len() ==> closed_predicate(#[trigger] v[i], variables),
    decreases v,
{
    if v.len() > 0 {
        let shorter = v.drop_last();
        lemma_junction_failure(shorter, variables);
        closed_predicates_are_lowered(v.last(), variables);
        if junction_failure(v, variables) is None {
            assert forall|i: int| 0 <= i < v.len() implies closed_predicate(
                #[trigger] v[i],
                variables,
            ) by {
                if i < shorter.len() {
                    assert(shorter[i] == v[i]);
                }
            }
        } else if forall|i: int| 0 <= i < v.len() ==> closed_predicate(#[trigger] v[i], variables) {
            assert forall|i: int| 0 <= i < shorter.len() implies closed_predicate(
                #[trigger] shorter[i],
                variables,
            ) by {
                assert(shorter[i] == v[i]);
            }
        }
    }
}

/// What fails early fails on the whole.
proof fn lemma_junction_prefix(v: Seq<PredicateModel>, n: int, variables: Seq<(String, Wire)>)
    requires
        0 <= n <= v.len(),
    ensures
        junction_failure(v.take(n), variables) is Some ==> junction_failure(v, variables)
            == junction_failure(v.take(n), variables),
    decreases v.len() - n,
{
    if n < v.len() {
        lemma_junction_prefix(v, n + 1, variables);
        assert(v.take(n + 1).drop_last() =~= v.take(n));
    } else {
        assert(v.take(n) =~= v);
    }
}

/// How many divisions in the predicate are rounded.
pub open spec fn predicate_divisions(p: PredicateModel) -> nat
    decreases p,
{
    match p {
        PredicateModel::Compare { op, lhs, rhs } => divisions(lhs) + divisions(rhs),
        PredicateModel::And(v) => junction_divisions(v),
        PredicateModel::Or(v) => junction_divisions(v),
        PredicateModel::Not(p) => predicate_divisions(*p),
        PredicateModel::Constant(_) => 0,
    }
}

pub open spec fn junction_divisions(v: Seq<PredicateModel>) -> nat
    decreases v,
{
    if v.len() == 0 {
        0
    } else {
        junction_divisions(v.drop_last()) + predicate_divisions(v.last())
    }
}

pub open spec fn compare_int(op: CompareOp) -> IntOp {
    match op {
        CompareOp::Eq => IntOp::Eq,
        CompareOp::Le => IntOp::Le,
        CompareOp::Lt => IntOp::Lt,
        CompareOp::Ge => IntOp::Ge,
        CompareOp::Gt => IntOp::Gt,
    }
}

/// The value of a predicate over 64-bit integers.
pub open spec fn predicate_value64(p: PredicateModel, vars: Seq<(Seq<char>, Val)>) -> Val
    decreases p,
{
    match p {
        PredicateModel::Compare { op, lhs, rhs } => int_op_on(
            compare_int(op),
            index_value64(lhs, vars),
            index_value64(rhs, vars),
        ),
        PredicateModel::And(v) => folded_bool(BoolOp::And, true, v, vars),
        PredicateModel::Or(v) => folded_bool(BoolOp::Or, false, v, vars),
        PredicateModel::Not(p) => not_on(predicate_value64(*p, vars)),
        PredicateModel::Constant(b) => Val::Bool(b),
    }
}

/// The values folded from the left, beginning with `start`.
pub open spec fn folded_bool(
    op: BoolOp,
    start: bool,
    v: Seq<PredicateModel>,
    vars: Seq<(Seq<char>, Val)>,
) -> Val
    decreases v,
{
    if v.len() == 0 {
        Val::Bool(start)
    } else {
        bool_op_on(
            op,
            folded_bool(op, start, v.drop_last(), vars),
            predicate_value64(v.last(), vars),
        )
    }
}

#[verifier::rlimit(80)]
#[verifier::spinoff_prover]
fn lower_junction(
    b: &mut DFGBuilder<Hugr>,
    op: BoolOp,
    start: bool,
    values: &Vec<Predicate>,
    variables: &Vec<(String, Wire)>,
) -> (r: Result<Wire>)
    requires
        vars_int(variables@, region_steps(*old(b))),
    ensures
        lowering_error(r, junction_failure(predicate_models(values@), variables@)),
        r matches Ok(w) ==> {
            &&& grows(region_steps(*old(b)), region_steps(*final(b)))
            &&& conditionals(region_steps(*final(b))) == conditionals(
                region_steps(*old(b)),
            ) + junction_divisions(predicate_models(values@))
            &&& region_steps(*old(b)).len() > 0 ==> keeps_sound(
                region_steps(*old(b)),
                region_steps(*final(b)),
            )
            &&& has_type(region_steps(*final(b)), w, Ty::Bool)
            &&& forall|env: Map<Wire, Val>| #[trigger]
                run(region_steps(*final(b)), env)[w] == folded_bool(
                    op,
                    start,
                    predicate_models(values@),
                    var_values(variables@, region_steps(*old(b)), env),
                )
        },
    decreases values, 0int,
{
    let ghost s0 = region_steps(*b);
    let ghost all = predicate_models(values@);
    let mut result = bool_constant(b, start);
    let mut i: usize = 0;
    proof {
        assert(all.take(0) =~= Seq::empty());
    }
    while i < values.len()
        invariant
            i <= values@.len(),
            all == predicate_models(values@),
            vars_int(variables@, s0),
            grows(s0, region_steps(*b)),
            s0.len() > 0 ==> keeps_sound(s0, region_steps(*b)),
            has_type(region_steps(*b), result, Ty::Bool),
            junction_failure(all.take(i as int), variables@) is None,
            conditionals(region_steps(*b)) == conditionals(s0) + junction_divisions(
                all.take(i as int),
            ),
            forall|env: Map<Wire, Val>| #[trigger]
                run(region_steps(*b), env)[result] == folded_bool(
                    op,
                    start,
                    all.take(i as int),
                    var_values(variables@, s0, env),
                ),
        decreases values@.len() - i,
    {
        let ghost s1 = region_steps(*b);
        let ghost acc = result;
        proof {
            lemma_vars_keep(variables@, s0, s1);
            assert(all.take(i + 1).drop_last() =~= all.take(i as int));
            assert(all.take(i + 1).last() == all[i as int]);
            assert(all[i as int] == values@[i as int]@);
            lemma_junction_prefix(all, i + 1, variables@);
        }
        let value = match lower_predicate(b, &values[i], variables) {
            Ok(w) => w,
            Err(e) => return Err(e),
        };
        let ghost s2 = region_steps(*b);
        proof {
            lemma_keeps_all(s1, s2);
            lemma_grows_trans(s0, s1, s2);
        }
        result = match binary_bool(b, op, result, value) {
            Ok(w) => w,
            Err(e) => return Err(e),
        };
        proof {
            let s3 = region_steps(*b);
            lemma_grows_trans(s0, s2, s3);
            assert forall|env: Map<Wire, Val>| #[trigger] run(s3, env)[result] == folded_bool(
                op,
                start,
                all.take(i + 1),
                var_values(variables@, s0, env),
            ) by {
                assert(run(s2, env)[acc] == run(s1, env)[acc]);
                assert(run(s2, env)[value] == predicate_value64(
                    all[i as int],
                    var_values(variables@, s1, env),
                ));
                assert(var_values(variables@, s1, env) == var_values(variables@, s0, env));
            }
        }
        i += 1;
    }
    proof {
        assert(all.take(i as int) =~= all);
    }
    Ok(result)
}

/// Lowers a predicate to a wire that carries its value.
#[verifier::rlimit(80)]
#[verifier::spinoff_prover]
pub fn lower_predicate(
    b: &mut DFGBuilder<Hugr>,
    predicate: &Predicate,
    variables: &Vec<(String, Wire)>,
) -> (r: Result<Wire>)
    requires
        vars_int(variables@, region_steps(*old(b))),
    ensures
        r is Ok <==> closed_predicate(predicate@, variables@),
        lowering_error(r, predicate_failure(predicate@, variables@)),
        r matches Ok(w) ==> {
            &&& grows(region_steps(*old(b)), region_steps(*final(b)))
            &&& conditionals(region_steps(*final(b))) == conditionals(
                region_steps(*old(b)),
            ) + predicate_divisions(predicate@)
            &&& region_steps(*old(b)).len() > 0 ==> keeps_sound(
                region_steps(*old(b)),
                region_steps(*final(b)),
            )
            &&& has_type(region_steps(*final(b)), w, Ty::Bool)
            &&& forall|env: Map<Wire, Val>| #[trigger]
                run(region_steps(*final(b)), env)[w] == predicate_value64(
                    predicate@,
                    var_values(variables@, region_steps(*old(b)), env),
                )
        },
    decreases predicate, 1int,
{
    let ghost s0 = region_steps(*b);
    proof {
        closed_predicates_are_lowered(predicate@, variables@);
    }
    match predicate {
        Predicate::Compare { op, lhs, rhs } => {
            let l = match lower_index_expr(b, lhs, variables) {
                Ok(w) => w,
                Err(e) => return Err(e),
            };
            let ghost s1 = region_steps(*b);
            proof {
                lemma_vars_keep(variables@, s0, s1);
            }
            let r = match lower_index_expr(b, rhs, variables) {
                Ok(w) => w,
                Err(e) => return Err(e),
            };
            let ghost s2 = region_steps(*b);
            proof {
                lemma_keeps_all(s1, s2);
                lemma_grows_trans(s0, s1, s2);
            }
            let op = match op {
                CompareOp::Eq => IntOp::Eq,
                CompareOp::Le => IntOp::Le,
                CompareOp::Lt => IntOp::Lt,
                CompareOp::Ge => IntOp::Ge,
                CompareOp::Gt => IntOp::Gt,
            };
            let res = binary_int(b, op, l, r);
            proof {
                if let Ok(w) = res {
                    let s3 = region_steps(*b);
                    lemma_grows_trans(s0, s2, s3);
                    assert forall|env: Map<Wire, Val>| #[trigger] run(s3, env)[w]
                        == predicate_value64(predicate@, var_values(variables@, s0, env)) by {
                        assert(run(s2, env)[l] == run(s1, env)[l]);
                        assert(run(s2, env)[r] == index_value64(
                            rhs@,
                            var_values(variables@, s1, env),
                        ));
                        assert(var_values(variables@, s1, env) == var_values(variables@, s0, env));
                    }
                }
            }
            res
        },
        Predicate::And(values) => lower_junction(b, BoolOp::And, true, values, variables),
        Predicate::Or(values) => lower_junction(b, BoolOp::Or, false, values, variables),
        Predicate::Not(value) => {
            let v = match lower_predicate(b, value, variables) {
                Ok(w) => w,
                Err(e) => return Err(e),
            };
            let ghost s1 = region_steps(*b);
            let res = negate(b, v);
            proof {
                if res is Ok {
                    lemma_grows_trans(s0, s1, region_steps(*b));
                }
            }
            res
        },
        Predicate::Constant(value) => Ok(bool_constant(b, *value)),
    }
}

} // verus!
