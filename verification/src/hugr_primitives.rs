//! The regions by which the dataflow backend is exercised: each is built whole and validated.
use crate::dataflow::{
    adds, bind, can_read, conditionals, copyable, fits, grows, input_types, keeps_sound, known, leaves,
    lemma_adds, lemma_grows_refl, lemma_grows_trans, lemma_keeps_all, lemma_run_last, loop_results,
    loop_sig, output_types, pending, region_results, results, round_of, rounds, run, sound, step,
    type_within, unread, valid, value_at, wire_type, wrap64, Gate, IntOp, Op, Sig, Step, Ty, Val,
};
use crate::error::{CodegenError, Failure, Result};
use crate::hugr_builder::{
    allocate, apply_gate, begins, borrow_qubit, case_break, case_continue, case_view, choice_view,
    close_choice, close_loop, controlled_x, discard_all_borrowed, finish, finish_case, finish_with,
    free, hugr_steps, lemma_begins, load_index, load_int, loop_int_op, loop_view, new_all_borrowed,
    new_array_region, new_bool_region, new_int_region, open_case, open_loop, open_loop_choice,
    region_steps, return_qubit, ChoiceView,
};
use crate::hugr_lowering::{
    all_divisions, bound, build_error, closed_index, closed_predicate, divisions, has_type,
    index_value64, junction_divisions, lower_index_expr, lower_predicate, predicate_divisions,
    predicate_value64, var_values,
};
use crate::scheduled_ir::{
    index_model, index_models, predicate_models, CompareOp, IndexExpr, IndexModel, Predicate,
    PredicateModel,
};
use crate::text::dec_u64;
use hugr::builder::{ConditionalBuilder, DFGBuilder};
use hugr::{Hugr, Wire};
use vstd::prelude::*;

verus! {

/// A wire of a type that no operation has read.
pub open spec fn fresh(steps: Seq<Step>, w: Wire, t: Ty) -> bool {
    has_type(steps, w, t) && unread(steps, w)
}

/// All that has to be read and has not been is among the wires.
pub open spec fn open_wires(steps: Seq<Step>, wires: Seq<Wire>) -> bool {
    forall|w: Wire| #[trigger] pending(steps, w) ==> wires.contains(w)
}

/// One more operation that holds no region: the region stays sound.
proof fn lemma_next(
    around: Seq<Step>,
    before: Seq<Step>,
    after: Seq<Step>,
    op: Op,
    inputs: Seq<Wire>,
    outputs: Seq<Wire>,
    open: Seq<Wire>,
    left: Seq<Wire>,
)
    requires
        adds(around, before, after, op, inputs, outputs),
        !(op is Input || op is Output || op is Conditional || op is TailLoop),
        before.len() > 0,
        sound(around, before),
        inputs.len() == input_types(op).len(),
        forall|i: int|
            0 <= i < inputs.len() ==> (known(before, #[trigger] inputs[i]) || known(
                around,
                inputs[i],
            )),
        forall|i: int|
            0 <= i < inputs.len() ==> type_within(
                around,
                before,
                #[trigger] inputs[i],
            ) == input_types(op)[i],
        can_read(around, before, inputs),
        open_wires(before, open),
        forall|i: int|
            0 <= i < open.len() ==> inputs.contains(#[trigger] open[i]) || left.contains(open[i]),
        forall|i: int| 0 <= i < outputs.len() ==> left.contains(#[trigger] outputs[i])
            || copyable(output_types(op)[i]),
    ensures
        sound(around, after),
        open_wires(after, left),
{
    lemma_adds(around, before, after, op, inputs, outputs);
    assert(fits(around, before, step(op, inputs, outputs)));
    assert forall|w: Wire| #[trigger] pending(after, w) implies left.contains(w) by {
        if pending(before, w) && !inputs.contains(w) {
            let i = choose|i: int| 0 <= i < open.len() && open[i] == w;
            assert(open[i] == w);
        } else {
            let i = outputs.index_of(w);
            assert(outputs.contains(w));
            assert(outputs[i] == w);
        }
    }
}

/// Takes the qubit at `index` out of an array, applies a Hadamard gate to it and puts it back.
pub open spec fn is_borrow_h(s: Seq<Step>, size: nat, index: nat) -> bool {
    exists|a0: Wire, i0: Wire, a1: Wire, q0: Wire, q1: Wire, i1: Wire, a2: Wire|
        s == #[trigger] borrow_h_steps(size, index, a0, i0, a1, q0, q1, i1, a2)
}

pub open spec fn borrow_h_steps(
    size: nat,
    index: nat,
    a0: Wire,
    i0: Wire,
    a1: Wire,
    q0: Wire,
    q1: Wire,
    i1: Wire,
    a2: Wire,
) -> Seq<Step> {
    seq![
        step(
            Op::Input(Sig { inputs: seq![Ty::Array(size)], outputs: seq![Ty::Array(size)] }),
            seq![],
            seq![a0],
        ),
        step(Op::LoadIndex(index), seq![], seq![i0]),
        step(Op::Borrow { size }, seq![a0, i0], seq![a1, q0]),
        step(Op::Gate(Gate::H), seq![q0], seq![q1]),
        step(Op::LoadIndex(index), seq![], seq![i1]),
        step(Op::Return { size }, seq![a1, i1, q1], seq![a2]),
        step(Op::Output, seq![a2], seq![]),
    ]
}

/// The region that applies a Hadamard gate to one qubit of an array.
#[verifier::rlimit(80)]
#[verifier::spinoff_prover]
pub fn build_borrow_h_primitive(size: u64, index: u64) -> (r: Result<Hugr>)
    ensures
        index >= size ==> (r matches Err(e) && e@ == Failure::Hugr(
            "borrow index "@ + crate::text::dec(index as nat) + " is outside array size "@
                + crate::text::dec(size as nat),
        )),
        r is Ok <==> index < size,
        r matches Ok(h) ==> {
            &&& is_borrow_h(hugr_steps(h), size as nat, index as nat)
            &&& valid(Seq::empty(), hugr_steps(h))
        },
{
    if index >= size {
        return Err(
            CodegenError::Hugr(
                crate::text::cat4(
                    "borrow index ",
                    dec_u64(index).as_str(),
                    " is outside array size ",
                    dec_u64(size).as_str(),
                ),
            ),
        );
    }
    let (mut b, a0) = match new_array_region(size) {
        Ok(p) => p,
        Err(e) => return Err(build_error(e)),
    };
    proof {
        let sig = Sig { inputs: seq![Ty::Array(size as nat)], outputs: seq![Ty::Array(size as nat)] };
        let outs = seq![a0];
        lemma_begins(Seq::empty(), region_steps(b), sig, outs);
        assert(outs[0] == a0);
    }
    let ghost s0 = region_steps(b);
    let i0 = load_index(&mut b, index);
    proof {
        let t = region_steps(b);
        assert(sound(Seq::empty(), t) && open_wires(t, seq![a0]) && fresh(t, a0, Ty::Array(size as nat)) && fresh(t, i0, Ty::Index)) by {
            let ins = Seq::<Wire>::empty();
            let outs = seq![i0];
            lemma_adds(Seq::empty(), s0, t, Op::LoadIndex(index as nat), ins, outs);
            assert(outs[0] == i0);
            let open = seq![a0];
            let left = seq![a0];
            assert(left[0] == a0);
            lemma_next(Seq::empty(), s0, t, Op::LoadIndex(index as nat), ins, outs, open, left);
        }
    }
    let ghost s1 = region_steps(b);
    proof {
        let ins = seq![a0, i0];
        assert(ins[0] == a0);
        assert(ins[1] == i0);
    }
    let (a1, q0) = match borrow_qubit(&mut b, size, a0, i0) {
        Ok(p) => p,
        Err(e) => return Err(build_error(e)),
    };
    proof {
        let t = region_steps(b);
        assert(sound(Seq::empty(), t) && open_wires(t, seq![a1, q0]) && fresh(t, a1, Ty::Array(size as nat)) && fresh(t, q0, Ty::Qubit)) by {
            let ins = seq![a0, i0];
            let outs = seq![a1, q0];
            lemma_adds(Seq::empty(), s1, t, Op::Borrow { size: size as nat }, ins, outs);
            assert(outs[0] == a1);
            assert(outs[1] == q0);
            let open = seq![a0];
            let left = seq![a1, q0];
            assert(ins[0] == a0);
            assert(ins[1] == i0);
            assert(left[0] == a1);
            assert(left[1] == q0);
            assert(open[0] == a0 && ins.contains(a0));
            lemma_next(Seq::empty(), s1, t, Op::Borrow { size: size as nat }, ins, outs, open, left);
        }
    }
    let ghost s2 = region_steps(b);
    proof {
        let ins = seq![q0];
        assert(ins[0] == q0);
    }
    let q1 = match apply_gate(&mut b, Gate::H, q0) {
        Ok(w) => w,
        Err(e) => return Err(build_error(e)),
    };
    proof {
        let t = region_steps(b);
        assert(sound(Seq::empty(), t) && open_wires(t, seq![a1, q1]) && fresh(t, a1, Ty::Array(size as nat)) && fresh(t, q1, Ty::Qubit)) by {
            let ins = seq![q0];
            let outs = seq![q1];
            lemma_adds(Seq::empty(), s2, t, Op::Gate(Gate::H), ins, outs);
            assert(outs[0] == q1);
            let open = seq![a1, q0];
            let left = seq![a1, q1];
            assert(ins[0] == q0);
            assert(left[0] == a1);
            assert(left[1] == q1);
            assert(open[1] == q0 && ins.contains(q0));
            lemma_next(Seq::empty(), s2, t, Op::Gate(Gate::H), ins, outs, open, left);
        }
    }
    let ghost s3 = region_steps(b);
    let i1 = load_index(&mut b, index);
    proof {
        let t = region_steps(b);
        assert(sound(Seq::empty(), t) && open_wires(t, seq![a1, q1]) && fresh(t, a1, Ty::Array(size as nat)) && fresh(t, q1, Ty::Qubit) && fresh(t, i1, Ty::Index)) by {
            let ins = Seq::<Wire>::empty();
            let outs = seq![i1];
            lemma_adds(Seq::empty(), s3, t, Op::LoadIndex(index as nat), ins, outs);
            assert(outs[0] == i1);
            let open = seq![a1, q1];
            let left = seq![a1, q1];
            assert(left[0] == a1);
            assert(left[1] == q1);
            lemma_next(Seq::empty(), s3, t, Op::LoadIndex(index as nat), ins, outs, open, left);
        }
    }
    let ghost s4 = region_steps(b);
    proof {
        let ins = seq![a1, i1, q1];
        assert(ins[0] == a1);
        assert(ins[1] == i1);
        assert(ins[2] == q1);
    }
    let a2 = match return_qubit(&mut b, size, a1, i1, q1) {
        Ok(w) => w,
        Err(e) => return Err(build_error(e)),
    };
    proof {
        let t = region_steps(b);
        assert(sound(Seq::empty(), t) && open_wires(t, seq![a2]) && fresh(t, a2, Ty::Array(size as nat))) by {
            let ins = seq![a1, i1, q1];
            let outs = seq![a2];
            lemma_adds(Seq::empty(), s4, t, Op::Return { size: size as nat }, ins, outs);
            assert(outs[0] == a2);
            let open = seq![a1, q1];
            let left = seq![a2];
            assert(ins[0] == a1);
            assert(ins[1] == i1);
            assert(ins[2] == q1);
            assert(left[0] == a2);
            assert(open[0] == a1 && ins.contains(a1));
            assert(open[1] == q1 && ins.contains(q1));
            lemma_next(Seq::empty(), s4, t, Op::Return { size: size as nat }, ins, outs, open, left);
        }
    }
    proof {
        let t = region_steps(b);
        assert(t[0].op is Input);
        assert(fresh(t, a2, Ty::Array(size as nat)));
        lemma_finished(t, a2, Ty::Array(size as nat));
    }
    match finish_with(b, a2) {
        Ok(h) => {
            proof {
                assert(hugr_steps(h) =~= borrow_h_steps(
                    size as nat,
                    index as nat,
                    a0,
                    i0,
                    a1,
                    q0,
                    q1,
                    i1,
                    a2,
                ));
            }
            Ok(h)
        },
        Err(e) => Err(build_error(e)),
    }
}

/// A region that hands on a wire as its one output is finished.
proof fn lemma_finished(steps: Seq<Step>, output: Wire, t: Ty)
    requires
        steps.len() > 0,
        sound(Seq::empty(), steps),
        steps[0].op matches Op::Input(sig) && sig.outputs == seq![t],
        fresh(steps, output, t),
        open_wires(steps, seq![output]) || open_wires(steps, seq![]),
    ensures
        valid(Seq::empty(), steps.push(step(Op::Output, seq![output], seq![]))),
{
    let ins = seq![output];
    let whole = steps.push(step(Op::Output, ins, seq![]));
    assert(ins[0] == output);
    assert(ins.contains(output));
    assert(adds(Seq::empty(), steps, whole, Op::Output, ins, seq![]));
    lemma_adds(Seq::empty(), steps, whole, Op::Output, ins, Seq::<Wire>::empty());
    assert(fits(Seq::empty(), steps, step(Op::Output, ins, seq![])));
    assert forall|w: Wire| !#[trigger] pending(whole, w) by {
        if pending(whole, w) {
            assert(pending(steps, w) && !ins.contains(w));
        }
    }
}

/// A qubit that is allocated, passed through a one-element array and measured, and a pair that is
/// allocated, entangled and freed.
pub open spec fn is_lifecycle(s: Seq<Step>) -> bool {
    exists|w: Seq<Wire>| w.len() == 13 && s == #[trigger] lifecycle_steps(w)
}

pub open spec fn lifecycle_steps(w: Seq<Wire>) -> Seq<Step> {
    seq![
        step(Op::Input(Sig { inputs: seq![], outputs: seq![Ty::Bool] }), seq![], seq![]),
        step(Op::NewAllBorrowed { size: 1 }, seq![], seq![w[0]]),
        step(Op::QAlloc, seq![], seq![w[1]]),
        step(Op::LoadIndex(0), seq![], seq![w[2]]),
        step(Op::Return { size: 1 }, seq![w[0], w[2], w[1]], seq![w[3]]),
        step(Op::LoadIndex(0), seq![], seq![w[4]]),
        step(Op::Borrow { size: 1 }, seq![w[3], w[4]], seq![w[5], w[6]]),
        step(Op::DiscardAllBorrowed { size: 1 }, seq![w[5]], seq![]),
        step(Op::Gate(Gate::MeasureFree), seq![w[6]], seq![w[7]]),
        step(Op::Gate(Gate::Read), seq![w[7]], seq![w[8]]),
        step(Op::QAlloc, seq![], seq![w[9]]),
        step(Op::QAlloc, seq![], seq![w[10]]),
        step(Op::Cx, seq![w[9], w[10]], seq![w[11], w[12]]),
        step(Op::QFree, seq![w[11]], seq![]),
        step(Op::QFree, seq![w[12]], seq![]),
        step(Op::Output, seq![w[8]], seq![]),
    ]
}

/// The region that runs qubits through their whole life.
#[verifier::rlimit(80)]
#[verifier::spinoff_prover]
pub fn build_quantum_lifecycle_primitive() -> (r: Result<Hugr>)
    ensures
        r is Ok,
        r matches Ok(h) ==> is_lifecycle(hugr_steps(h)) && valid(Seq::empty(), hugr_steps(h)),
{
    let mut b = match new_bool_region() {
        Ok(b) => b,
        Err(e) => return Err(build_error(e)),
    };
    proof {
        let sig = Sig { inputs: seq![], outputs: seq![Ty::Bool] };
        let outs = Seq::<Wire>::empty();
        lemma_begins(Seq::empty(), region_steps(b), sig, outs);
    }
    let ghost s0 = region_steps(b);
    let w0 = match new_all_borrowed(&mut b, 1) {
        Ok(w) => w,
        Err(e) => return Err(build_error(e)),
    };
    proof {
        let t = region_steps(b);
        assert(sound(Seq::empty(), t) && open_wires(t, seq![w0]) && fresh(t, w0, Ty::Array(1))) by {
            let ins = Seq::<Wire>::empty();
            let outs = seq![w0];
            lemma_adds(Seq::empty(), s0, t, Op::NewAllBorrowed { size: 1 }, ins, outs);
            assert(outs[0] == w0);
            let open = Seq::<Wire>::empty();
            let left = seq![w0];
            assert(left[0] == w0);
            lemma_next(Seq::empty(), s0, t, Op::NewAllBorrowed { size: 1 }, ins, outs, open, left);
        }
    }
    let ghost s1 = region_steps(b);
    let w1 = match allocate(&mut b) {
        Ok(w) => w,
        Err(e) => return Err(build_error(e)),
    };
    proof {
        let t = region_steps(b);
        assert(sound(Seq::empty(), t) && open_wires(t, seq![w0, w1]) && fresh(t, w0, Ty::Array(1)) && fresh(t, w1, Ty::Qubit)) by {
            let ins = Seq::<Wire>::empty();
            let outs = seq![w1];
            lemma_adds(Seq::empty(), s1, t, Op::QAlloc, ins, outs);
            assert(outs[0] == w1);
            let open = seq![w0];
            let left = seq![w0, w1];
            assert(left[0] == w0);
            assert(left[1] == w1);
            lemma_next(Seq::empty(), s1, t, Op::QAlloc, ins, outs, open, left);
        }
    }
    let ghost s2 = region_steps(b);
    let w2 = load_index(&mut b, 0);
    proof {
        let t = region_steps(b);
        assert(sound(Seq::empty(), t) && open_wires(t, seq![w0, w1]) && fresh(t, w0, Ty::Array(1)) && fresh(t, w1, Ty::Qubit) && fresh(t, w2, Ty::Index)) by {
            let ins = Seq::<Wire>::empty();
            let outs = seq![w2];
            lemma_adds(Seq::empty(), s2, t, Op::LoadIndex(0), ins, outs);
            assert(outs[0] == w2);
            let open = seq![w0, w1];
            let left = seq![w0, w1];
            assert(left[0] == w0);
            assert(left[1] == w1);
            lemma_next(Seq::empty(), s2, t, Op::LoadIndex(0), ins, outs, open, left);
        }
    }
    let ghost s3 = region_steps(b);
    proof {
        let ins = seq![w0, w2, w1];
        assert(ins[0] == w0);
        assert(ins[1] == w2);
        assert(ins[2] == w1);
    }
    let w3 = match return_qubit(&mut b, 1, w0, w2, w1) {
        Ok(w) => w,
        Err(e) => return Err(build_error(e)),
    };
    proof {
        let t = region_steps(b);
        assert(sound(Seq::empty(), t) && open_wires(t, seq![w3]) && fresh(t, w3, Ty::Array(1))) by {
            let ins = seq![w0, w2, w1];
            let outs = seq![w3];
            lemma_adds(Seq::empty(), s3, t, Op::Return { size: 1 }, ins, outs);
            assert(outs[0] == w3);
            let open = seq![w0, w1];
            let left = seq![w3];
            assert(ins[0] == w0);
            assert(ins[1] == w2);
            assert(ins[2] == w1);
            assert(left[0] == w3);
            assert(open[0] == w0 && ins.contains(w0));
            assert(open[1] == w1 && ins.contains(w1));
            lemma_next(Seq::empty(), s3, t, Op::Return { size: 1 }, ins, outs, open, left);
        }
    }
    let ghost s4 = region_steps(b);
    let w4 = load_index(&mut b, 0);
    proof {
        let t = region_steps(b);
        assert(sound(Seq::empty(), t) && open_wires(t, seq![w3]) && fresh(t, w3, Ty::Array(1)) && fresh(t, w4, Ty::Index)) by {
            let ins = Seq::<Wire>::empty();
            let outs = seq![w4];
            lemma_adds(Seq::empty(), s4, t, Op::LoadIndex(0), ins, outs);
            assert(outs[0] == w4);
            let open = seq![w3];
            let left = seq![w3];
            assert(left[0] == w3);
            lemma_next(Seq::empty(), s4, t, Op::LoadIndex(0), ins, outs, open, left);
        }
    }
    let ghost s5 = region_steps(b);
    proof {
        let ins = seq![w3, w4];
        assert(ins[0] == w3);
        assert(ins[1] == w4);
    }
    let (w5, w6) = match borrow_qubit(&mut b, 1, w3, w4) {
        Ok(p) => p,
        Err(e) => return Err(build_error(e)),
    };
    proof {
        let t = region_steps(b);
        assert(sound(Seq::empty(), t) && open_wires(t, seq![w5, w6]) && fresh(t, w5, Ty::Array(1)) && fresh(t, w6, Ty::Qubit)) by {
            let ins = seq![w3, w4];
            let outs = seq![w5, w6];
            lemma_adds(Seq::empty(), s5, t, Op::Borrow { size: 1 }, ins, outs);
            assert(outs[0] == w5);
            assert(outs[1] == w6);
            let open = seq![w3];
            let left = seq![w5, w6];
            assert(ins[0] == w3);
            assert(ins[1] == w4);
            assert(left[0] == w5);
            assert(left[1] == w6);
            assert(open[0] == w3 && ins.contains(w3));
            lemma_next(Seq::empty(), s5, t, Op::Borrow { size: 1 }, ins, outs, open, left);
        }
    }
    let ghost s6 = region_steps(b);
    proof {
        let ins = seq![w5];
        assert(ins[0] == w5);
    }
    match discard_all_borrowed(&mut b, 1, w5) {
        Ok(()) => {},
        Err(e) => return Err(build_error(e)),
    }
    proof {
        let t = region_steps(b);
        assert(sound(Seq::empty(), t) && open_wires(t, seq![w6]) && fresh(t, w6, Ty::Qubit)) by {
            let ins = seq![w5];
            let outs = Seq::<Wire>::empty();
            lemma_adds(Seq::empty(), s6, t, Op::DiscardAllBorrowed { size: 1 }, ins, outs);
            let open = seq![w5, w6];
            let left = seq![w6];
            assert(ins[0] == w5);
            assert(left[0] == w6);
            assert(open[0] == w5 && ins.contains(w5));
            lemma_next(Seq::empty(), s6, t, Op::DiscardAllBorrowed { size: 1 }, ins, outs, open, left);
        }
    }
    let ghost s7 = region_steps(b);
    proof {
        let ins = seq![w6];
        assert(ins[0] == w6);
    }
    let w7 = match apply_gate(&mut b, Gate::MeasureFree, w6) {
        Ok(w) => w,
        Err(e) => return Err(build_error(e)),
    };
    proof {
        let t = region_steps(b);
        assert(sound(Seq::empty(), t) && open_wires(t, Seq::<Wire>::empty()) && fresh(t, w7, Ty::Measurement)) by {
            let ins = seq![w6];
            let outs = seq![w7];
            lemma_adds(Seq::empty(), s7, t, Op::Gate(Gate::MeasureFree), ins, outs);
            assert(outs[0] == w7);
            let open = seq![w6];
            let left = Seq::<Wire>::empty();
            assert(ins[0] == w6);
            assert(open[0] == w6 && ins.contains(w6));
            lemma_next(Seq::empty(), s7, t, Op::Gate(Gate::MeasureFree), ins, outs, open, left);
        }
    }
    let ghost s8 = region_steps(b);
    proof {
        let ins = seq![w7];
        assert(ins[0] == w7);
    }
    let w8 = match apply_gate(&mut b, Gate::Read, w7) {
        Ok(w) => w,
        Err(e) => return Err(build_error(e)),
    };
    proof {
        let t = region_steps(b);
        assert(sound(Seq::empty(), t) && open_wires(t, Seq::<Wire>::empty()) && fresh(t, w8, Ty::Bool)) by {
            let ins = seq![w7];
            let outs = seq![w8];
            lemma_adds(Seq::empty(), s8, t, Op::Gate(Gate::Read), ins, outs);
            assert(outs[0] == w8);
            let open = Seq::<Wire>::empty();
            let left = Seq::<Wire>::empty();
            assert(ins[0] == w7);
            lemma_next(Seq::empty(), s8, t, Op::Gate(Gate::Read), ins, outs, open, left);
        }
    }
    let ghost s9 = region_steps(b);
    let w9 = match allocate(&mut b) {
        Ok(w) => w,
        Err(e) => return Err(build_error(e)),
    };
    proof {
        let t = region_steps(b);
        assert(sound(Seq::empty(), t) && open_wires(t, seq![w9]) && fresh(t, w9, Ty::Qubit) && fresh(t, w8, Ty::Bool)) by {
            let ins = Seq::<Wire>::empty();
            let outs = seq![w9];
            lemma_adds(Seq::empty(), s9, t, Op::QAlloc, ins, outs);
            assert(outs[0] == w9);
            let open = Seq::<Wire>::empty();
            let left = seq![w9];
            assert(left[0] == w9);
            lemma_next(Seq::empty(), s9, t, Op::QAlloc, ins, outs, open, left);
        }
    }
    let ghost s10 = region_steps(b);
    let w10 = match allocate(&mut b) {
        Ok(w) => w,
        Err(e) => return Err(build_error(e)),
    };
    proof {
        let t = region_steps(b);
        assert(sound(Seq::empty(), t) && open_wires(t, seq![w9, w10]) && fresh(t, w9, Ty::Qubit) && fresh(t, w10, Ty::Qubit) && fresh(t, w8, Ty::Bool)) by {
            let ins = Seq::<Wire>::empty();
            let outs = seq![w10];
            lemma_adds(Seq::empty(), s10, t, Op::QAlloc, ins, outs);
            assert(outs[0] == w10);
            let open = seq![w9];
            let left = seq![w9, w10];
            assert(left[0] == w9);
            assert(left[1] == w10);
            lemma_next(Seq::empty(), s10, t, Op::QAlloc, ins, outs, open, left);
        }
    }
    let ghost s11 = region_steps(b);
    proof {
        let ins = seq![w9, w10];
        assert(ins[0] == w9);
        assert(ins[1] == w10);
    }
    let (w11, w12) = match controlled_x(&mut b, w9, w10) {
        Ok(p) => p,
        Err(e) => return Err(build_error(e)),
    };
    proof {
        let t = region_steps(b);
        assert(sound(Seq::empty(), t) && open_wires(t, seq![w11, w12]) && fresh(t, w11, Ty::Qubit) && fresh(t, w12, Ty::Qubit) && fresh(t, w8, Ty::Bool)) by {
            let ins = seq![w9, w10];
            let outs = seq![w11, w12];
            lemma_adds(Seq::empty(), s11, t, Op::Cx, ins, outs);
            assert(outs[0] == w11);
            assert(outs[1] == w12);
            let open = seq![w9, w10];
            let left = seq![w11, w12];
            assert(ins[0] == w9);
            assert(ins[1] == w10);
            assert(left[0] == w11);
            assert(left[1] == w12);
            assert(open[0] == w9 && ins.contains(w9));
            assert(open[1] == w10 && ins.contains(w10));
            lemma_next(Seq::empty(), s11, t, Op::Cx, ins, outs, open, left);
        }
    }
    let ghost s12 = region_steps(b);
    proof {
        let ins = seq![w11];
        assert(ins[0] == w11);
    }
    match free(&mut b, w11) {
        Ok(()) => {},
        Err(e) => return Err(build_error(e)),
    }
    proof {
        let t = region_steps(b);
        assert(sound(Seq::empty(), t) && open_wires(t, seq![w12]) && fresh(t, w12, Ty::Qubit) && fresh(t, w8, Ty::Bool)) by {
            let ins = seq![w11];
            let outs = Seq::<Wire>::empty();
            lemma_adds(Seq::empty(), s12, t, Op::QFree, ins, outs);
            let open = seq![w11, w12];
            let left = seq![w12];
            assert(ins[0] == w11);
            assert(left[0] == w12);
            assert(open[0] == w11 && ins.contains(w11));
            lemma_next(Seq::empty(), s12, t, Op::QFree, ins, outs, open, left);
        }
    }
    let ghost s13 = region_steps(b);
    proof {
        let ins = seq![w12];
        assert(ins[0] == w12);
    }
    match free(&mut b, w12) {
        Ok(()) => {},
        Err(e) => return Err(build_error(e)),
    }
    proof {
        let t = region_steps(b);
        assert(sound(Seq::empty(), t) && open_wires(t, Seq::<Wire>::empty()) && fresh(t, w8, Ty::Bool)) by {
            let ins = seq![w12];
            let outs = Seq::<Wire>::empty();
            lemma_adds(Seq::empty(), s13, t, Op::QFree, ins, outs);
            let open = seq![w12];
            let left = Seq::<Wire>::empty();
            assert(ins[0] == w12);
            assert(open[0] == w12 && ins.contains(w12));
            lemma_next(Seq::empty(), s13, t, Op::QFree, ins, outs, open, left);
        }
    }
    proof {
        let t = region_steps(b);
        assert(t[0].op is Input);
        assert(fresh(t, w8, Ty::Bool));
        lemma_finished(t, w8, Ty::Bool);
    }
    match finish_with(b, w8) {
        Ok(h) => {
            proof {
                let w = seq![w0, w1, w2, w3, w4, w5, w6, w7, w8, w9, w10, w11, w12];
                assert(hugr_steps(h) =~= lifecycle_steps(w));
            }
            Ok(h)
        },
        Err(e) => Err(build_error(e)),
    }
}

/// The case that leaves a loop: it hands on the array.
pub open spec fn break_case_steps(size: nat, w: Seq<Wire>) -> Seq<Step> {
    seq![
        step(Op::Input(loop_sig(size)), seq![], seq![w[0], w[1]]),
        step(Op::Break, seq![], seq![w[2]]),
        step(Op::Output, seq![w[2], w[1]], seq![]),
    ]
}

pub open spec fn is_break_case(s: Seq<Step>, size: nat) -> bool {
    exists|w: Seq<Wire>|
        w.len() == 3 && w.no_duplicates() && s == #[trigger] break_case_steps(size, w)
}

/// The case that goes on with a loop: it hands on the next iterator and the array.
pub open spec fn continue_case_steps(size: nat, w: Seq<Wire>) -> Seq<Step> {
    seq![
        step(Op::Input(loop_sig(size)), seq![], seq![w[0], w[1]]),
        step(Op::Continue, seq![w[0]], seq![w[2]]),
        step(Op::Output, seq![w[2], w[1]], seq![]),
    ]
}

pub open spec fn is_continue_case(s: Seq<Step>, size: nat) -> bool {
    exists|w: Seq<Wire>|
        w.len() == 3 && w.no_duplicates() && s == #[trigger] continue_case_steps(size, w)
}

/// The body of a counted loop: it goes on while the iterator is below the limit, with the iterator
/// raised by one, and hands the array on either way.
pub open spec fn counted_body_steps(
    size: nat,
    one: Wire,
    limit: Wire,
    w: Seq<Wire>,
    cases: Seq<Seq<Step>>,
) -> Seq<Step> {
    seq![
        step(Op::Input(loop_sig(size)), seq![], seq![w[0], w[1]]),
        step(Op::Int(IntOp::Lt), seq![w[0], limit], seq![w[2]]),
        step(Op::Int(IntOp::Add), seq![w[0], one], seq![w[3]]),
        step(
            Op::Conditional { sig: loop_sig(size), cases },
            seq![w[2], w[3], w[1]],
            seq![w[4], w[5]],
        ),
        step(Op::Output, seq![w[4], w[5]], seq![]),
    ]
}

pub open spec fn is_counted_body(s: Seq<Step>, size: nat, one: Wire, limit: Wire) -> bool {
    exists|w: Seq<Wire>, cases: Seq<Seq<Step>>|
        {
            &&& w.len() == 6
            &&& w.no_duplicates()
            &&& !w.contains(one)
            &&& !w.contains(limit)
            &&& cases.len() == 2
            &&& is_break_case(cases[0], size)
            &&& is_continue_case(cases[1], size)
            &&& s == #[trigger] counted_body_steps(size, one, limit, w, cases)
        }
}

/// A loop over an array of `size` qubits that counts from 0 to `limit`.
pub open spec fn counted_loop_steps(size: nat, limit: int, w: Seq<Wire>, body: Seq<Step>) -> Seq<
    Step,
> {
    seq![
        step(
            Op::Input(Sig { inputs: seq![Ty::Array(size)], outputs: seq![Ty::Array(size)] }),
            seq![],
            seq![w[0]],
        ),
        step(Op::LoadInt(0), seq![], seq![w[1]]),
        step(Op::LoadInt(1), seq![], seq![w[2]]),
        step(Op::LoadInt(limit), seq![], seq![w[3]]),
        step(Op::TailLoop { size, body }, seq![w[1], w[0]], seq![w[4]]),
        step(Op::Output, seq![w[4]], seq![]),
    ]
}

pub open spec fn is_counted_loop(s: Seq<Step>, size: nat, limit: int) -> bool {
    exists|w: Seq<Wire>, body: Seq<Step>|
        {
            &&& w.len() == 5
            &&& w.no_duplicates()
            &&& is_counted_body(body, size, w[2], w[3])
            &&& s == #[trigger] counted_loop_steps(size, limit, w, body)
        }
}

proof fn lemma_break_case(s: Seq<Step>, size: nat, ins: Seq<Val>, env: Map<Wire, Val>)
    requires
        is_break_case(s, size),
    ensures
        region_results(s, ins, env) == seq![Val::Break, value_at(ins, 1)],
{
    let w = choose|w: Seq<Wire>|
        w.len() == 3 && w.no_duplicates() && s == #[trigger] break_case_steps(size, w);
    let start = bind(env, s[0].outputs, ins);
    let two = s.drop_last();
    let one = two.drop_last();
    assert(one.drop_last() =~= Seq::<Step>::empty());
    assert(run(one.drop_last(), start) == start);
    assert(run(one, start) == start);
    assert(two.last() == s[1]);
    let after = run(two, start);
    assert(s[1].outputs[0] == w[2]);
    lemma_run_last(two, start, seq![]);
    assert(after[w[2]] == Val::Break);
    assert(!s[1].outputs.contains(w[1]));
    assert(after[w[1]] == start[w[1]]);
    assert(s[0].outputs.contains(w[1])) by {
        assert(s[0].outputs[1] == w[1]);
    }
    assert(s[0].outputs.index_of(w[1]) == 1) by {
        assert(s[0].outputs[0] == w[0]);
        assert(s[0].outputs[1] == w[1]);
    }
    assert(region_results(s, ins, env) =~= seq![Val::Break, value_at(ins, 1)]);
}

proof fn lemma_continue_case(s: Seq<Step>, size: nat, ins: Seq<Val>, env: Map<Wire, Val>, n: int)
    requires
        is_continue_case(s, size),
        value_at(ins, 0) == Val::Int(n),
    ensures
        region_results(s, ins, env) == seq![Val::Continue(n), value_at(ins, 1)],
{
    let w = choose|w: Seq<Wire>|
        w.len() == 3 && w.no_duplicates() && s == #[trigger] continue_case_steps(size, w);
    let start = bind(env, s[0].outputs, ins);
    let two = s.drop_last();
    let one = two.drop_last();
    assert(one.drop_last() =~= Seq::<Step>::empty());
    assert(run(one.drop_last(), start) == start);
    assert(run(one, start) == start);
    assert(two.last() == s[1]);
    let after = run(two, start);
    assert(s[0].outputs[0] == w[0]);
    assert(s[0].outputs[1] == w[1]);
    assert(s[0].outputs.contains(w[0]) && s[0].outputs.contains(w[1]));
    assert(s[0].outputs.index_of(w[0]) == 0);
    assert(s[0].outputs.index_of(w[1]) == 1);
    assert(s[1].outputs[0] == w[2]);
    assert(s[1].outputs.contains(w[2]));
    assert(s[1].outputs.index_of(w[2]) == 0);
    lemma_run_last(two, start, seq![Val::Int(n)]);
    assert(after[w[2]] == Val::Continue(n));
    assert(!s[1].outputs.contains(w[1]));
    assert(region_results(s, ins, env) =~= seq![Val::Continue(n), value_at(ins, 1)]);
}

/// One round of a counted loop.
proof fn lemma_round(
    s: Seq<Step>,
    size: nat,
    one: Wire,
    limit: Wire,
    env: Map<Wire, Val>,
    i: int,
    l: int,
    array: Val,
)
    requires
        is_counted_body(s, size, one, limit),
        env[one] == Val::Int(1),
        env[limit] == Val::Int(l),
    ensures
        region_results(s, seq![Val::Int(i), array], env) == if i < l {
            seq![Val::Continue(wrap64(i + 1)), array]
        } else {
            seq![Val::Break, array]
        },
{
    let (w, cases) = choose|w: Seq<Wire>, cases: Seq<Seq<Step>>|
        {
            &&& w.len() == 6
            &&& w.no_duplicates()
            &&& !w.contains(one)
            &&& !w.contains(limit)
            &&& cases.len() == 2
            &&& is_break_case(cases[0], size)
            &&& is_continue_case(cases[1], size)
            &&& s == #[trigger] counted_body_steps(size, one, limit, w, cases)
        };
    assert forall|k: int| 0 <= k < 6 implies #[trigger] w[k] != one && w[k] != limit by {
        assert(w.contains(w[k]));
    }
    let ins = seq![Val::Int(i), array];
    let start = bind(env, s[0].outputs, ins);
    let p4 = s.drop_last();
    let p3 = p4.drop_last();
    let p2 = p3.drop_last();
    let p1 = p2.drop_last();
    assert(p1.drop_last() =~= Seq::<Step>::empty());
    assert(run(p1.drop_last(), start) == start);
    assert(p1.last() == s[0] && p2.last() == s[1] && p3.last() == s[2] && p4.last() == s[3]);
    assert(run(p1, start) == start);
    assert(s[0].outputs[0] == w[0] && s[0].outputs[1] == w[1]);
    assert(s[0].outputs.contains(w[0]) && s[0].outputs.contains(w[1]));
    assert(s[0].outputs.index_of(w[0]) == 0 && s[0].outputs.index_of(w[1]) == 1);
    assert(start[w[0]] == Val::Int(i) && start[w[1]] == array);
    assert(start[one] == Val::Int(1) && start[limit] == Val::Int(l));
    let r2 = run(p2, start);
    assert(s[1].outputs[0] == w[2]);
    assert(s[1].outputs.contains(w[2]) && s[1].outputs.index_of(w[2]) == 0);
    lemma_run_last(p2, start, seq![Val::Int(i), Val::Int(l)]);
    assert(r2[w[2]] == Val::Bool(i < l));
    assert(r2[w[0]] == Val::Int(i) && r2[w[1]] == array && r2[one] == Val::Int(1));
    let r3 = run(p3, start);
    assert(s[2].outputs[0] == w[3]);
    assert(s[2].outputs.contains(w[3]) && s[2].outputs.index_of(w[3]) == 0);
    lemma_run_last(p3, start, seq![Val::Int(i), Val::Int(1)]);
    assert(r3[w[3]] == Val::Int(wrap64(i + 1)));
    assert(r3[w[2]] == Val::Bool(i < l) && r3[w[1]] == array);
    let r4 = run(p4, start);
    let v3 = seq![Val::Bool(i < l), Val::Int(wrap64(i + 1)), array];
    lemma_run_last(p4, start, v3);
    assert(v3[0] == Val::Bool(i < l) && v3[1] == Val::Int(wrap64(i + 1)) && v3[2] == array);
    let rest = v3.skip(1);
    assert(value_at(rest, 0) == Val::Int(wrap64(i + 1)) && value_at(rest, 1) == array);
    lemma_break_case(cases[0], size, rest, r3);
    lemma_continue_case(cases[1], size, rest, r3, wrap64(i + 1));
    let outs = results(s[3].op, v3, r3);
    assert(value_at(v3, 0) == Val::Bool(i < l));
    assert(s[3].outputs[0] == w[4] && s[3].outputs[1] == w[5]);
    assert(s[3].outputs.contains(w[4]) && s[3].outputs.contains(w[5]));
    assert(s[3].outputs.index_of(w[4]) == 0 && s[3].outputs.index_of(w[5]) == 1);
    assert(r4[w[4]] == value_at(outs, 0) && r4[w[5]] == value_at(outs, 1));
    assert(s.last() == s[4]);
    assert(region_results(s, ins, env) =~= if i < l {
        seq![Val::Continue(wrap64(i + 1)), array]
    } else {
        seq![Val::Break, array]
    });
}

/// A counted loop leaves in the round after those in which the iterator is below the limit.
proof fn lemma_rounds(
    s: Seq<Step>,
    size: nat,
    one: Wire,
    limit: Wire,
    env: Map<Wire, Val>,
    i: int,
    l: int,
    array: Val,
    n: nat,
)
    requires
        is_counted_body(s, size, one, limit),
        env[one] == Val::Int(1),
        env[limit] == Val::Int(l),
        0 <= i,
        l <= i64::MAX,
    ensures
        rounds(round_of(s, env), Val::Int(i), array, n) == if n > 0 && n > l - i {
            Some(array)
        } else {
            None
        },
    decreases n,
{
    if n > 0 {
        lemma_round(s, size, one, limit, env, i, l, array);
        assert(round_of(s, env)(Val::Int(i), array) == region_results(
            s,
            seq![Val::Int(i), array],
            env,
        ));
        if i < l {
            assert(wrap64(i + 1) == i + 1);
            lemma_rounds(s, size, one, limit, env, i + 1, l, array, (n - 1) as nat);
        }
    }
}

/// A counted loop of `size` rounds goes on with the counters 0 to `size - 1`, leaves in the next
/// round, and hands its array on untouched. Every size up to the largest signed 64-bit integer is
/// counted; of a larger one the limit is negative, and no round is counted.
pub proof fn a_counted_loop_runs_size_times(
    s: Seq<Step>,
    size: nat,
    limit: int,
    env: Map<Wire, Val>,
    n: nat,
)
    requires
        is_counted_loop(s, size, limit),
        limit <= i64::MAX,
    ensures
        run(s, env)[s.last().inputs[0]] == env[s[0].outputs[0]],
        ({
            let body = s[4].op->TailLoop_body;
            let before = run(s.take(4), env);
            rounds(round_of(body, before), Val::Int(0), env[s[0].outputs[0]], n) == if n > 0 && n > limit {
                Some(env[s[0].outputs[0]])
            } else {
                None
            }
        }),
{
    let (w, body) = choose|w: Seq<Wire>, body: Seq<Step>|
        {
            &&& w.len() == 5
            &&& w.no_duplicates()
            &&& is_counted_body(body, size, w[2], w[3])
            &&& s == #[trigger] counted_loop_steps(size, limit, w, body)
        };
    let p5 = s.drop_last();
    let p4 = p5.drop_last();
    let p3 = p4.drop_last();
    let p2 = p3.drop_last();
    let p1 = p2.drop_last();
    assert(p4 =~= s.take(4));
    assert(p1.drop_last() =~= Seq::<Step>::empty());
    assert(run(p1.drop_last(), env) == env);
    assert(run(p1, env) == env);
    assert(p2.last() == s[1] && p3.last() == s[2] && p4.last() == s[3] && p5.last() == s[4]);
    assert(s[0].outputs[0] == w[0]);
    let r2 = run(p2, env);
    assert(s[1].outputs[0] == w[1]);
    lemma_run_last(p2, env, seq![]);
    assert(r2[w[1]] == Val::Int(0) && r2[w[0]] == env[w[0]]);
    let r3 = run(p3, env);
    assert(s[2].outputs[0] == w[2]);
    lemma_run_last(p3, env, seq![]);
    assert(r3[w[2]] == Val::Int(1) && r3[w[1]] == Val::Int(0) && r3[w[0]] == env[w[0]]);
    let r4 = run(p4, env);
    assert(s[3].outputs[0] == w[3]);
    lemma_run_last(p4, env, seq![]);
    assert(r4[w[3]] == Val::Int(limit) && r4[w[2]] == Val::Int(1));
    assert(r4[w[1]] == Val::Int(0) && r4[w[0]] == env[w[0]]);
    let array = env[w[0]];
    lemma_rounds(body, size, w[2], w[3], r4, 0, limit, array, n);
    let v = seq![Val::Int(0), array];
    lemma_run_last(p5, env, v);
    let enough = if limit > 0 {
        (limit + 1) as nat
    } else {
        1nat
    };
    lemma_rounds(body, size, w[2], w[3], r4, 0, limit, array, enough);
    assert(leaves(round_of(body, r4), Val::Int(0), array, enough));
    let m = choose|m: nat| #[trigger] leaves(round_of(body, r4), Val::Int(0), array, m);
    lemma_rounds(body, size, w[2], w[3], r4, 0, limit, array, m);
    assert(loop_results(round_of(body, r4), Val::Int(0), array) =~= seq![array]);
    assert(value_at(v, 0) == Val::Int(0) && value_at(v, 1) == array);
    assert(results(s[4].op, v, r4) == seq![array]);
    assert(s[4].outputs[0] == w[4]);
    assert(s[4].outputs.contains(w[4]) && s[4].outputs.index_of(w[4]) == 0);
    assert(run(p5, env)[w[4]] == array);
    assert(s.last() == s[5]);
    assert(s[5].inputs[0] == w[4]);
    assert(!s[5].outputs.contains(w[4]));
}

/// A case of the control of a loop is finished.
proof fn lemma_case_finished(
    around: Seq<Step>,
    size: nat,
    begun: Seq<Step>,
    steps: Seq<Step>,
    op: Op,
    inputs: Seq<Wire>,
    first: Wire,
    array: Wire,
    control: Wire,
)
    requires
        begins(around, begun, loop_sig(size), seq![first, array]),
        op is Break && inputs.len() == 0 || op is Continue && inputs == seq![first],
        adds(around, begun, steps, op, inputs, seq![control]),
    ensures
        seq![first, array, control].no_duplicates(),
        known(steps, control),
        known(steps, array),
        can_read(around, steps, seq![control, array]),
        valid(around, steps.push(step(Op::Output, seq![control, array], seq![]))),
{
    let ins = seq![first, array];
    assert(ins[0] == first && ins[1] == array);
    lemma_begins(around, begun, loop_sig(size), ins);
    assert(seq![control][0] == control);
    lemma_adds(around, begun, steps, op, inputs, seq![control]);
    assert(ins.index_of(first) == 0 && ins.index_of(array) == 1) by {
        assert(ins.contains(first) && ins.contains(array));
    }
    if inputs.len() > 0 {
        assert(inputs[0] == first);
    }
    let open = seq![array];
    assert(open[0] == array);
    assert(open_wires(begun, open)) by {
        assert forall|w: Wire| #[trigger] pending(begun, w) implies open.contains(w) by {
            assert(w == first || w == array);
        }
    }
    lemma_next(around, begun, steps, op, inputs, seq![control], open, open);
    assert(!inputs.contains(array));
    assert(known(begun, array) && !known(begun, control));
    let outs = seq![control, array];
    let whole = steps.push(step(Op::Output, outs, seq![]));
    assert(outs[0] == control && outs[1] == array);
    assert(unread(steps, array));
    assert(wire_type(steps, array) == Ty::Array(size));
    assert(wire_type(steps, control) == Ty::Control);
    assert(steps[0] == begun[0]);
    assert(fits(around, steps, step(Op::Output, outs, seq![])));
    assert(whole.drop_last() =~= steps);
    assert(whole.last() == step(Op::Output, outs, seq![]));
    assert(sound(around, whole));
    assert(adds(around, steps, whole, Op::Output, outs, Seq::<Wire>::empty()));
    lemma_adds(around, steps, whole, Op::Output, outs, Seq::<Wire>::empty());
    assert forall|w: Wire| !#[trigger] pending(whole, w) by {
        if pending(whole, w) {
            assert(pending(steps, w));
            assert(w == array);
            assert(outs.contains(array));
        }
    }
}

fn break_case<'a>(c: &mut ConditionalBuilder<&'a mut Hugr>, size: u64) -> (r: Result<()>)
    requires
        choice_view(*old(c)).sig == loop_sig(size as nat),
        choice_view(*old(c)).built == seq![None::<Seq<Step>>, None],
    ensures
        r is Ok,
        ({
            let v = choice_view(*final(c));
            &&& v.built[0] matches Some(body) && is_break_case(body, size as nat) && valid(
                v.around,
                body,
            )
            &&& v == (ChoiceView {
                built: seq![v.built[0], None],
                ..choice_view(*old(c))
            })
        }),
{
    let ghost before = choice_view(*c);
    let (mut k, _next, array) = match open_case(c, 0) {
        Ok(p) => p,
        Err(e) => return Err(build_error(e)),
    };
    let ghost begun = case_view(k).steps;
    let ghost body = case_view(k).body;
    let control = match case_break(&mut k) {
        Ok(w) => w,
        Err(e) => return Err(build_error(e)),
    };
    let ghost steps = case_view(k).steps;
    proof {
        lemma_case_finished(
            before.around,
            size as nat,
            begun,
            steps,
            Op::Break,
            seq![],
            _next,
            array,
            control,
        );
    }
    let outputs = vec![control, array];
    proof {
        assert(outputs@ =~= seq![control, array]);
        assert(steps[0] == begun[0]);
    }
    match finish_case(k, outputs) {
        Ok(()) => {},
        Err(e) => return Err(build_error(e)),
    }
    proof {
        let w = seq![_next, array, control];
        assert(body =~= break_case_steps(size as nat, w));
        assert(is_break_case(body, size as nat));
        assert(choice_view(*c).built =~= seq![Some(body), None]);
    }
    Ok(())
}

fn continue_case<'a>(c: &mut ConditionalBuilder<&'a mut Hugr>, size: u64) -> (r: Result<()>)
    requires
        choice_view(*old(c)).sig == loop_sig(size as nat),
        choice_view(*old(c)).built.len() == 2,
        choice_view(*old(c)).built[1] is None,
    ensures
        r is Ok,
        ({
            let v = choice_view(*final(c));
            &&& v.built[1] matches Some(body) && is_continue_case(body, size as nat) && valid(
                v.around,
                body,
            )
            &&& v == (ChoiceView {
                built: seq![choice_view(*old(c)).built[0], v.built[1]],
                ..choice_view(*old(c))
            })
        }),
{
    let ghost before = choice_view(*c);
    let (mut k, next, array) = match open_case(c, 1) {
        Ok(p) => p,
        Err(e) => return Err(build_error(e)),
    };
    let ghost begun = case_view(k).steps;
    let ghost body = case_view(k).body;
    proof {
        let ins = seq![next, array];
        lemma_begins(before.around, begun, loop_sig(size as nat), ins);
        assert(ins[0] == next);
        assert(seq![next][0] == next);
    }
    let control = match case_continue(&mut k, next) {
        Ok(w) => w,
        Err(e) => return Err(build_error(e)),
    };
    let ghost steps = case_view(k).steps;
    proof {
        lemma_case_finished(
            before.around,
            size as nat,
            begun,
            steps,
            Op::Continue,
            seq![next],
            next,
            array,
            control,
        );
    }
    let outputs = vec![control, array];
    proof {
        assert(outputs@ =~= seq![control, array]);
        assert(steps[0] == begun[0]);
    }
    match finish_case(k, outputs) {
        Ok(()) => {},
        Err(e) => return Err(build_error(e)),
    }
    proof {
        let w = seq![next, array, control];
        assert(body =~= continue_case_steps(size as nat, w));
        assert(is_continue_case(body, size as nat));
        assert(choice_view(*c).built =~= seq![before.built[0], Some(body)]);
    }
    Ok(())
}

/// The loop of a counted loop, as one more operation of the region.
#[verifier::rlimit(90)]
#[verifier::spinoff_prover]
fn counted_body(
    b: &mut DFGBuilder<Hugr>,
    size: u64,
    array: Wire,
    zero: Wire,
    one: Wire,
    limit: Wire,
) -> (r: Result<Wire>)
    requires
        region_steps(*old(b)).len() > 0,
        sound(Seq::empty(), region_steps(*old(b))),
        open_wires(region_steps(*old(b)), seq![array]),
        fresh(region_steps(*old(b)), array, Ty::Array(size as nat)),
        has_type(region_steps(*old(b)), zero, Ty::Int),
        has_type(region_steps(*old(b)), one, Ty::Int),
        has_type(region_steps(*old(b)), limit, Ty::Int),
    ensures
        r is Ok,
        r matches Ok(out) ==> {
            let body = region_steps(*final(b)).last().op->TailLoop_body;
            &&& region_steps(*final(b)) == region_steps(*old(b)).push(
                step(Op::TailLoop { size: size as nat, body }, seq![zero, array], seq![out]),
            )
            &&& !known(region_steps(*old(b)), out)
            &&& is_counted_body(body, size as nat, one, limit)
            &&& sound(Seq::empty(), region_steps(*final(b)))
            &&& open_wires(region_steps(*final(b)), seq![out])
            &&& fresh(region_steps(*final(b)), out, Ty::Array(size as nat))
        },
{
    let ghost s0 = region_steps(*b);
    let ghost n = size as nat;
    proof {
        let ins = seq![zero, array];
        assert(ins[0] == zero && ins[1] == array);
    }
    let (mut t, iterator, entering) = match open_loop(b, size, zero, array) {
        Ok(p) => p,
        Err(e) => return Err(build_error(e)),
    };
    let ghost l0 = loop_view(t);
    let ghost open = seq![entering];
    proof {
        let ins = seq![iterator, entering];
        assert(ins[0] == iterator && ins[1] == entering);
        lemma_begins(s0, l0.steps, loop_sig(n), ins);
        assert(ins.index_of(iterator) == 0 && ins.index_of(entering) == 1) by {
            assert(ins.contains(iterator) && ins.contains(entering));
        }
        assert(open[0] == entering);
        assert(open_wires(l0.steps, open)) by {
            assert forall|w: Wire| #[trigger] pending(l0.steps, w) implies open.contains(w) by {
                assert(w == iterator || w == entering);
            }
        }
        let reads = seq![iterator, limit];
        assert(reads[0] == iterator && reads[1] == limit);
        assert(!known(l0.steps, limit) && !known(l0.steps, one));
    }
    let condition = match loop_int_op(&mut t, IntOp::Lt, iterator, limit) {
        Ok(w) => w,
        Err(e) => return Err(build_error(e)),
    };
    let ghost l1 = loop_view(t);
    proof {
        let reads = seq![iterator, limit];
        let outs = seq![condition];
        assert(reads[0] == iterator && reads[1] == limit);
        assert(outs[0] == condition);
        assert(sound(s0, l1.steps) && open_wires(l1.steps, open)
            && has_type(l1.steps, iterator, Ty::Int) && has_type(l1.steps, condition, Ty::Bool)
            && fresh(l1.steps, entering, Ty::Array(n)) && !known(l0.steps, condition)
            && !known(s0, condition)) by {
            lemma_adds(s0, l0.steps, l1.steps, Op::Int(IntOp::Lt), reads, outs);
            lemma_next(s0, l0.steps, l1.steps, Op::Int(IntOp::Lt), reads, outs, open, open);
            assert(!reads.contains(entering));
        }
        assert(!known(l1.steps, one)) by {
            lemma_adds(s0, l0.steps, l1.steps, Op::Int(IntOp::Lt), reads, outs);
            if known(l1.steps, one) {
                assert(outs.contains(one));
            }
        }
        let reads = seq![iterator, one];
        assert(reads[0] == iterator && reads[1] == one);
    }
    let next = match loop_int_op(&mut t, IntOp::Add, iterator, one) {
        Ok(w) => w,
        Err(e) => return Err(build_error(e)),
    };
    let ghost l2 = loop_view(t);
    proof {
        let reads = seq![iterator, one];
        let outs = seq![next];
        assert(reads[0] == iterator && reads[1] == one);
        assert(outs[0] == next);
        assert(sound(s0, l2.steps) && open_wires(l2.steps, open)
            && has_type(l2.steps, iterator, Ty::Int) && has_type(l2.steps, condition, Ty::Bool)
            && has_type(l2.steps, next, Ty::Int) && fresh(l2.steps, entering, Ty::Array(n))
            && !known(l1.steps, next) && !known(s0, next)) by {
            lemma_adds(s0, l1.steps, l2.steps, Op::Int(IntOp::Add), reads, outs);
            lemma_next(s0, l1.steps, l2.steps, Op::Int(IntOp::Add), reads, outs, open, open);
            assert(!reads.contains(entering));
        }
        let reads = seq![condition, next, entering];
        assert(reads[0] == condition && reads[1] == next && reads[2] == entering);
        assert(condition != entering && next != entering);
    }
    let mut c = match open_loop_choice(&mut t, size, condition, next, entering) {
        Ok(c) => c,
        Err(e) => return Err(build_error(e)),
    };
    let ghost v0 = choice_view(c);
    match break_case(&mut c, size) {
        Ok(()) => {},
        Err(e) => return Err(e),
    }
    match continue_case(&mut c, size) {
        Ok(()) => {},
        Err(e) => return Err(e),
    }
    let ghost v1 = choice_view(c);
    let outputs = match close_choice(c) {
        Ok(v) => v,
        Err(e) => return Err(build_error(e)),
    };
    let ghost l3 = loop_view(t);
    proof {
        assert(outputs@.len() == 2);
    }
    let control = outputs[0];
    let inner = outputs[1];
    let ghost cases = v0.cases;
    let ghost op = Op::Conditional { sig: loop_sig(n), cases };
    proof {
        assert(outputs@ =~= seq![control, inner]);
        assert(cases.len() == 2);
        assert(cases[0] == v1.built[0]->Some_0 && cases[1] == v1.built[1]->Some_0);
        let reads = seq![condition, next, entering];
        let outs = seq![control, inner];
        assert(reads[0] == condition && reads[1] == next && reads[2] == entering);
        assert(outs[0] == control && outs[1] == inner);
        assert(input_types(op) =~= seq![Ty::Bool, Ty::Int, Ty::Array(n)]);
        assert(fits(s0, l2.steps, step(op, reads, outs))) by {
            lemma_is_region(cases[0], n);
            lemma_is_region(cases[1], n);
        }
        assert(sound(s0, l3.steps) && fresh(l3.steps, inner, Ty::Array(n))
            && fresh(l3.steps, control, Ty::Control) && open_wires(l3.steps, seq![inner])
            && !known(l2.steps, control) && !known(l2.steps, inner) && !known(s0, control)
            && !known(s0, inner) && control != inner) by {
            lemma_adds(s0, l2.steps, l3.steps, op, reads, outs);
            assert forall|w: Wire| #[trigger] pending(l3.steps, w) implies seq![inner].contains(
                w,
            ) by {
                assert(seq![inner][0] == inner);
                if pending(l2.steps, w) && !reads.contains(w) {
                    assert(w == entering);
                    assert(reads.contains(entering));
                } else {
                    let i = outs.index_of(w);
                    assert(outs.contains(w));
                    assert(outs[i] == w);
                }
            }
        }
        let hands = seq![control, inner];
        assert(hands[0] == control && hands[1] == inner);
    }
    match close_loop(t, control, inner) {
        Ok(out) => {
            proof {
                let hands = seq![control, inner];
                let body = l3.steps.push(step(Op::Output, hands, seq![]));
                let w = seq![iterator, entering, condition, next, control, inner];
                assert(body =~= counted_body_steps(n, one, limit, w, cases));
                assert(w.no_duplicates()) by {
                    assert(known(l2.steps, iterator) && known(l2.steps, entering) && known(
                        l2.steps,
                        condition,
                    ) && known(l2.steps, next));
                    assert(known(l1.steps, iterator) && known(l1.steps, entering) && known(
                        l1.steps,
                        condition,
                    ));
                    assert(known(l0.steps, iterator) && known(l0.steps, entering));
                }
                assert forall|x: Wire| known(s0, x) implies !(#[trigger] w.contains(x)) by {
                    if w.contains(x) {
                        let i = w.index_of(x);
                        assert(w[i] == x);
                        assert(!known(s0, iterator) && !known(s0, entering));
                    }
                }
                assert(!w.contains(one) && !w.contains(limit));
                assert(is_counted_body(body, n, one, limit));
                assert(valid(s0, body)) by {
                    assert(l3.steps[0] == l0.steps[0]);
                    assert(fits(s0, l3.steps, step(Op::Output, hands, seq![])));
                    assert(body.drop_last() =~= l3.steps);
                    assert(body.last() == step(Op::Output, hands, seq![]));
                    assert(adds(
                        s0,
                        l3.steps,
                        body,
                        Op::Output,
                        hands,
                        Seq::<Wire>::empty(),
                    ));
                    lemma_adds(s0, l3.steps, body, Op::Output, hands, Seq::<Wire>::empty());
                    assert forall|x: Wire| !#[trigger] pending(body, x) by {
                        if pending(body, x) {
                            assert(pending(l3.steps, x));
                            assert(x == inner);
                            assert(hands.contains(inner));
                        }
                    }
                }
                let s1 = region_steps(*b);
                let ins = seq![zero, array];
                let outs = seq![out];
                let tail = Op::TailLoop { size: n, body };
                assert(ins[0] == zero && ins[1] == array && outs[0] == out);
                lemma_adds(Seq::empty(), s0, s1, tail, ins, outs);
                assert(Seq::<Step>::empty() + s0 =~= s0);
                assert(fits(Seq::empty(), s0, step(tail, ins, outs)));
                assert forall|x: Wire| #[trigger] pending(s1, x) implies outs.contains(x) by {
                    if pending(s0, x) && !ins.contains(x) {
                        assert(x == array);
                        assert(ins.contains(array));
                    }
                }
            }
            Ok(out)
        },
        Err(e) => Err(build_error(e)),
    }
}

proof fn lemma_is_region(s: Seq<Step>, size: nat)
    requires
        is_break_case(s, size) || is_continue_case(s, size),
    ensures
        s.len() == 3,
        s[0].op == Op::Input(loop_sig(size)),
{
    if is_break_case(s, size) {
        let w = choose|w: Seq<Wire>|
            w.len() == 3 && w.no_duplicates() && s == #[trigger] break_case_steps(size, w);
        assert(s[0] == break_case_steps(size, w)[0]);
    } else {
        let w = choose|w: Seq<Wire>|
            w.len() == 3 && w.no_duplicates() && s == #[trigger] continue_case_steps(size, w);
        assert(s[0] == continue_case_steps(size, w)[0]);
    }
}

/// The region that loops `size` times over an array of `size` qubits. The limit is the signed
/// integer with the bits of `size`.
#[verifier::rlimit(80)]
#[verifier::spinoff_prover]
pub fn build_counted_loop_primitive(size: u64) -> (r: Result<Hugr>)
    ensures
        r is Ok,
        r matches Ok(h) ==> {
            &&& is_counted_loop(hugr_steps(h), size as nat, (size as i64) as int)
            &&& valid(Seq::empty(), hugr_steps(h))
            &&& forall|env: Map<Wire, Val>|
                #![trigger run(hugr_steps(h), env)]
                run(hugr_steps(h), env)[hugr_steps(h).last().inputs[0]]
                    == env[hugr_steps(h)[0].outputs[0]]
        },
{
    let (mut b, w0) = match new_array_region(size) {
        Ok(p) => p,
        Err(e) => return Err(build_error(e)),
    };
    proof {
        let sig = Sig { inputs: seq![Ty::Array(size as nat)], outputs: seq![Ty::Array(size as nat)] };
        let outs = seq![w0];
        lemma_begins(Seq::empty(), region_steps(b), sig, outs);
        assert(outs[0] == w0);
    }
    let ghost s0 = region_steps(b);
    let w1 = load_int(&mut b, 0);
    proof {
        let t = region_steps(b);
        assert(sound(Seq::empty(), t) && open_wires(t, seq![w0]) && fresh(t, w0, Ty::Array(size as nat)) && fresh(t, w1, Ty::Int) && w1 != w0) by {
            let ins = Seq::<Wire>::empty();
            let outs = seq![w1];
            lemma_adds(Seq::empty(), s0, t, Op::LoadInt(0), ins, outs);
            assert(outs[0] == w1);
            let open = seq![w0];
            let left = seq![w0];
            assert(left[0] == w0);
            lemma_next(Seq::empty(), s0, t, Op::LoadInt(0), ins, outs, open, left);
        }
    }
    let ghost s1 = region_steps(b);
    let w2 = load_int(&mut b, 1);
    proof {
        let t = region_steps(b);
        assert(sound(Seq::empty(), t) && open_wires(t, seq![w0]) && fresh(t, w0, Ty::Array(size as nat)) && fresh(t, w1, Ty::Int) && fresh(t, w2, Ty::Int) && w2 != w0 && w2 != w1) by {
            let ins = Seq::<Wire>::empty();
            let outs = seq![w2];
            lemma_adds(Seq::empty(), s1, t, Op::LoadInt(1), ins, outs);
            assert(outs[0] == w2);
            let open = seq![w0];
            let left = seq![w0];
            assert(left[0] == w0);
            lemma_next(Seq::empty(), s1, t, Op::LoadInt(1), ins, outs, open, left);
        }
    }
    let ghost s2 = region_steps(b);
    let w3 = load_int(&mut b, size as i64);
    proof {
        let t = region_steps(b);
        assert(sound(Seq::empty(), t) && open_wires(t, seq![w0]) && fresh(t, w0, Ty::Array(size as nat)) && fresh(t, w1, Ty::Int) && fresh(t, w2, Ty::Int) && fresh(t, w3, Ty::Int) && w3 != w0 && w3 != w1 && w3 != w2) by {
            let ins = Seq::<Wire>::empty();
            let outs = seq![w3];
            lemma_adds(Seq::empty(), s2, t, Op::LoadInt((size as i64) as int), ins, outs);
            assert(outs[0] == w3);
            let open = seq![w0];
            let left = seq![w0];
            assert(left[0] == w0);
            lemma_next(Seq::empty(), s2, t, Op::LoadInt((size as i64) as int), ins, outs, open, left);
        }
    }
    let w4 = match counted_body(&mut b, size, w0, w1, w2, w3) {
        Ok(w) => w,
        Err(e) => return Err(e),
    };
    proof {
        let t = region_steps(b);
        assert(t[0] == s0[0]);
        lemma_finished(t, w4, Ty::Array(size as nat));
    }
    match finish_with(b, w4) {
        Ok(h) => {
            proof {
                let limit = (size as i64) as int;
                let w = seq![w0, w1, w2, w3, w4];
                let body = hugr_steps(h)[4].op->TailLoop_body;
                assert(hugr_steps(h) =~= counted_loop_steps(size as nat, limit, w, body));
                assert(w.no_duplicates());
                assert(is_counted_loop(hugr_steps(h), size as nat, limit));
                assert forall|env: Map<Wire, Val>|
                    #![trigger run(hugr_steps(h), env)]
                    run(hugr_steps(h), env)[hugr_steps(h).last().inputs[0]]
                        == env[hugr_steps(h)[0].outputs[0]] by {
                    a_counted_loop_runs_size_times(
                        hugr_steps(h),
                        size as nat,
                        limit,
                        env,
                        1,
                    );
                }
            }
            Ok(h)
        },
        Err(e) => Err(build_error(e)),
    }
}

pub open spec fn two() -> Box<IndexModel> {
    Box::new(IndexModel::Constant(2))
}

/// One index expression of each kind, over the variable `i`.
pub open spec fn sample_indices() -> Seq<IndexModel> {
    seq![
        IndexModel::Constant(-1),
        IndexModel::Variable("i"@),
        IndexModel::Add(two(), two()),
        IndexModel::Sub(two(), two()),
        IndexModel::Mul(two(), two()),
        IndexModel::Div(two(), two()),
        IndexModel::FloorDiv(two(), two()),
        IndexModel::CeilDiv(two(), two()),
        IndexModel::Mod(two(), two()),
        IndexModel::Min(seq![*two(), *two()]),
        IndexModel::Max(seq![*two(), *two()]),
    ]
}

/// One predicate of each kind.
pub open spec fn sample_predicates() -> Seq<PredicateModel> {
    seq![
        PredicateModel::Compare { op: CompareOp::Eq, lhs: *two(), rhs: *two() },
        PredicateModel::Compare { op: CompareOp::Le, lhs: *two(), rhs: *two() },
        PredicateModel::Compare { op: CompareOp::Lt, lhs: *two(), rhs: *two() },
        PredicateModel::Compare { op: CompareOp::Ge, lhs: *two(), rhs: *two() },
        PredicateModel::Compare { op: CompareOp::Gt, lhs: *two(), rhs: *two() },
        PredicateModel::And(seq![PredicateModel::Constant(true)]),
        PredicateModel::Or(seq![PredicateModel::Constant(false)]),
        PredicateModel::Not(Box::new(PredicateModel::Constant(true))),
        PredicateModel::Constant(false),
    ]
}

proof fn lemma_samples_closed(variables: Seq<(String, Wire)>, i: int)
    requires
        bound(variables, "i"@),
        0 <= i < sample_indices().len(),
    ensures
        closed_index(sample_indices()[i], variables),
{
    assert(closed_index(*two(), variables));
    let pair = seq![*two(), *two()];
    assert forall|k: int| 0 <= k < pair.len() implies closed_index(#[trigger] pair[k], variables) by {
        assert(pair[k] == *two());
    }
    let m = sample_indices()[i];
    if i == 9 {
        assert(m == IndexModel::Min(pair));
    } else if i == 10 {
        assert(m == IndexModel::Max(pair));
    } else {
        assert(m is Constant || m == IndexModel::Variable("i"@) || m == IndexModel::Add(two(), two())
            || m == IndexModel::Sub(two(), two()) || m == IndexModel::Mul(two(), two()) || m
            == IndexModel::Div(two(), two()) || m == IndexModel::FloorDiv(two(), two()) || m
            == IndexModel::CeilDiv(two(), two()) || m == IndexModel::Mod(two(), two()));
    }
}

proof fn lemma_predicates_closed(variables: Seq<(String, Wire)>, i: int)
    requires
        0 <= i < sample_predicates().len(),
    ensures
        closed_predicate(sample_predicates()[i], variables),
{
    let p = sample_predicates()[i];
    assert(closed_index(*two(), variables));
    assert(closed_predicate(PredicateModel::Constant(true), variables));
    assert(closed_predicate(PredicateModel::Constant(false), variables));
    if i < 5 {
        assert(p is Compare && p->lhs == *two() && p->rhs == *two());
    } else if i == 5 {
        assert(p == PredicateModel::And(seq![PredicateModel::Constant(true)]));
    } else if i == 6 {
        assert(p == PredicateModel::Or(seq![PredicateModel::Constant(false)]));
    } else if i == 7 {
        assert(p == PredicateModel::Not(Box::new(PredicateModel::Constant(true))));
    } else {
        assert(p == PredicateModel::Constant(false));
    }
}

fn constant_two() -> (r: IndexExpr)
    ensures
        r@ == *two(),
{
    IndexExpr::Constant(2)
}

fn boxed_two() -> (r: Box<IndexExpr>)
    ensures
        index_model(*r) == *two(),
{
    Box::new(IndexExpr::Constant(2))
}

fn two_twos() -> (r: Vec<IndexExpr>)
    ensures
        index_models(r@) == seq![*two(), *two()],
{
    let mut v: Vec<IndexExpr> = Vec::new();
    v.push(constant_two());
    v.push(constant_two());
    proof {
        assert(index_models(v@) =~= seq![*two(), *two()]);
    }
    v
}

fn index_samples() -> (r: Vec<IndexExpr>)
    ensures
        index_models(r@) == sample_indices(),
{
    let mut v: Vec<IndexExpr> = Vec::new();
    v.push(IndexExpr::Constant(-1));
    v.push(IndexExpr::Variable("i".to_owned()));
    v.push(IndexExpr::Add(boxed_two(), boxed_two()));
    v.push(IndexExpr::Sub(boxed_two(), boxed_two()));
    v.push(IndexExpr::Mul(boxed_two(), boxed_two()));
    v.push(IndexExpr::Div(boxed_two(), boxed_two()));
    v.push(IndexExpr::FloorDiv(boxed_two(), boxed_two()));
    v.push(IndexExpr::CeilDiv(boxed_two(), boxed_two()));
    v.push(IndexExpr::Mod(boxed_two(), boxed_two()));
    v.push(IndexExpr::Min(two_twos()));
    v.push(IndexExpr::Max(two_twos()));
    proof {
        assert(index_models(v@) =~= sample_indices());
    }
    v
}

fn compare_twos(op: CompareOp) -> (r: Predicate)
    ensures
        r@ == (PredicateModel::Compare { op, lhs: *two(), rhs: *two() }),
{
    Predicate::Compare { op, lhs: constant_two(), rhs: constant_two() }
}

fn one_predicate(b: bool) -> (r: Vec<Predicate>)
    ensures
        predicate_models(r@) == seq![PredicateModel::Constant(b)],
{
    let mut v: Vec<Predicate> = Vec::new();
    v.push(Predicate::Constant(b));
    proof {
        assert(v@[0]@ == PredicateModel::Constant(b));
        assert(predicate_models(v@) =~= seq![PredicateModel::Constant(b)]);
    }
    v
}

fn predicate_samples() -> (r: Vec<Predicate>)
    ensures
        predicate_models(r@) == sample_predicates(),
{
    let mut v: Vec<Predicate> = Vec::new();
    v.push(compare_twos(CompareOp::Eq));
    v.push(compare_twos(CompareOp::Le));
    v.push(compare_twos(CompareOp::Lt));
    v.push(compare_twos(CompareOp::Ge));
    v.push(compare_twos(CompareOp::Gt));
    v.push(Predicate::And(one_predicate(true)));
    v.push(Predicate::Or(one_predicate(false)));
    let inner = Predicate::Constant(true);
    proof {
        assert(inner@ == PredicateModel::Constant(true));
    }
    v.push(Predicate::Not(Box::new(inner)));
    v.push(Predicate::Constant(false));
    proof {
        assert(predicate_models(v@) =~= sample_predicates());
    }
    v
}

/// Some wire carries the value of the index expression, whatever the input `i` carries.
pub open spec fn computes_index(steps: Seq<Step>, input: Wire, m: IndexModel) -> bool {
    exists|w: Wire| #[trigger]
        known(steps, w) && forall|env: Map<Wire, Val>| #[trigger]
            run(steps, env)[w] == index_value64(m, seq![("i"@, env[input])])
}

/// Some wire carries the value of the predicate, whatever the input `i` carries.
pub open spec fn computes_predicate(steps: Seq<Step>, input: Wire, p: PredicateModel) -> bool {
    exists|w: Wire| #[trigger]
        known(steps, w) && forall|env: Map<Wire, Val>| #[trigger]
            run(steps, env)[w] == predicate_value64(p, seq![("i"@, env[input])])
}

proof fn lemma_computes_index_keeps(a: Seq<Step>, b: Seq<Step>, input: Wire, m: IndexModel)
    requires
        grows(a, b),
        computes_index(a, input, m),
    ensures
        computes_index(b, input, m),
{
    let w = choose|w: Wire| #[trigger]
        known(a, w) && forall|env: Map<Wire, Val>| #[trigger]
            run(a, env)[w] == index_value64(m, seq![("i"@, env[input])]);
    lemma_keeps_all(a, b);
    assert(known(b, w));
}

proof fn lemma_computes_predicate_keeps(a: Seq<Step>, b: Seq<Step>, input: Wire, p: PredicateModel)
    requires
        grows(a, b),
        computes_predicate(a, input, p),
    ensures
        computes_predicate(b, input, p),
{
    let w = choose|w: Wire| #[trigger]
        known(a, w) && forall|env: Map<Wire, Val>| #[trigger]
            run(a, env)[w] == predicate_value64(p, seq![("i"@, env[input])]);
    lemma_keeps_all(a, b);
    assert(known(b, w));
}

/// The steps begin with the input, end without an output, and compute every sample between, with
/// a conditional for each of the two divisions that are rounded.
pub open spec fn is_index_lowering(s: Seq<Step>) -> bool {
    &&& s.len() >= 2
    &&& s[0].op == Op::Input(Sig { inputs: seq![Ty::Int], outputs: seq![] })
    &&& s[0].outputs.len() == 1
    &&& s.last() == step(Op::Output, seq![], seq![])
    &&& conditionals(s) == 2
    &&& forall|i: int|
        0 <= i < sample_indices().len() ==> computes_index(
            s.drop_last(),
            s[0].outputs[0],
            #[trigger] sample_indices()[i],
        )
    &&& forall|i: int|
        0 <= i < sample_predicates().len() ==> computes_predicate(
            s.drop_last(),
            s[0].outputs[0],
            #[trigger] sample_predicates()[i],
        )
}

fn lower_all_indices(
    b: &mut DFGBuilder<Hugr>,
    all: &Vec<IndexExpr>,
    input: Wire,
    variables: &Vec<(String, Wire)>,
) -> (r: Result<()>)
    requires
        variables@.len() == 1,
        variables@[0].0@ == "i"@,
        variables@[0].1 == input,
        has_type(region_steps(*old(b)), input, Ty::Int),
        region_steps(*old(b)).len() > 0,
        forall|env: Map<Wire, Val>| #[trigger]
            run(region_steps(*old(b)), env)[input] == env[input],
        forall|i: int|
            0 <= i < all@.len() ==> closed_index(#[trigger] index_models(all@)[i], variables@),
    ensures
        r is Ok,
        r is Ok ==> {
            &&& grows(region_steps(*old(b)), region_steps(*final(b)))
            &&& keeps_sound(region_steps(*old(b)), region_steps(*final(b)))
            &&& conditionals(region_steps(*final(b))) == conditionals(
                region_steps(*old(b)),
            ) + all_divisions(index_models(all@))
            &&& forall|i: int|
                0 <= i < all@.len() ==> computes_index(
                    region_steps(*final(b)),
                    input,
                    #[trigger] index_models(all@)[i],
                )
        },
{
    let ghost s0 = region_steps(*b);
    let ghost models = index_models(all@);
    let mut i: usize = 0;
    proof {
        lemma_grows_refl(s0);
    }
    while i < all.len()
        invariant
            i <= all@.len(),
            models == index_models(all@),
            variables@.len() == 1,
            variables@[0].0@ == "i"@,
            variables@[0].1 == input,
            has_type(s0, input, Ty::Int),
            s0.len() > 0,
            forall|env: Map<Wire, Val>| #[trigger] run(s0, env)[input] == env[input],
            grows(s0, region_steps(*b)),
            keeps_sound(s0, region_steps(*b)),
            conditionals(region_steps(*b)) == conditionals(s0) + all_divisions(
                models.take(i as int),
            ),
            forall|j: int| 0 <= j < all@.len() ==> closed_index(#[trigger] models[j], variables@),
            forall|j: int|
                0 <= j < i ==> computes_index(region_steps(*b), input, #[trigger] models[j]),
        decreases all@.len() - i,
    {
        let ghost s1 = region_steps(*b);
        proof {
            lemma_keeps_all(s0, s1);
        }
        proof {
            assert(models[i as int] == all@[i as int]@);
        }
        let w = match lower_index_expr(b, &all[i], variables) {
            Ok(w) => w,
            Err(e) => return Err(e),
        };
        proof {
            let s2 = region_steps(*b);
            lemma_grows_trans(s0, s1, s2);
            assert(models[i as int] == all@[i as int]@);
            assert forall|env: Map<Wire, Val>| #[trigger] run(s2, env)[w] == index_value64(
                models[i as int],
                seq![("i"@, env[input])],
            ) by {
                assert(run(s1, env)[input] == run(s0, env)[input]);
                assert(var_values(variables@, s1, env) =~= seq![("i"@, env[input])]);
            }
            assert(computes_index(s2, input, models[i as int]));
            assert forall|j: int| 0 <= j < i + 1 implies computes_index(
                s2,
                input,
                #[trigger] models[j],
            ) by {
                if j < i {
                    lemma_computes_index_keeps(s1, s2, input, models[j]);
                }
            }
        }
        proof {
            assert(models.take(i + 1).drop_last() =~= models.take(i as int));
        }
        i += 1;
    }
    proof {
        assert(models.take(i as int) =~= models);
    }
    Ok(())
}

fn lower_all_predicates(
    b: &mut DFGBuilder<Hugr>,
    all: &Vec<Predicate>,
    input: Wire,
    variables: &Vec<(String, Wire)>,
) -> (r: Result<()>)
    requires
        variables@.len() == 1,
        variables@[0].0@ == "i"@,
        variables@[0].1 == input,
        has_type(region_steps(*old(b)), input, Ty::Int),
        region_steps(*old(b)).len() > 0,
        forall|env: Map<Wire, Val>| #[trigger]
            run(region_steps(*old(b)), env)[input] == env[input],
        forall|i: int|
            0 <= i < all@.len() ==> closed_predicate(#[trigger] predicate_models(all@)[i], variables@),
    ensures
        r is Ok,
        r is Ok ==> {
            &&& grows(region_steps(*old(b)), region_steps(*final(b)))
            &&& keeps_sound(region_steps(*old(b)), region_steps(*final(b)))
            &&& conditionals(region_steps(*final(b))) == conditionals(
                region_steps(*old(b)),
            ) + junction_divisions(predicate_models(all@))
            &&& forall|i: int|
                0 <= i < all@.len() ==> computes_predicate(
                    region_steps(*final(b)),
                    input,
                    #[trigger] predicate_models(all@)[i],
                )
        },
{
    let ghost s0 = region_steps(*b);
    let ghost models = predicate_models(all@);
    let mut i: usize = 0;
    proof {
        lemma_grows_refl(s0);
    }
    while i < all.len()
        invariant
            i <= all@.len(),
            models == predicate_models(all@),
            variables@.len() == 1,
            variables@[0].0@ == "i"@,
            variables@[0].1 == input,
            has_type(s0, input, Ty::Int),
            s0.len() > 0,
            forall|env: Map<Wire, Val>| #[trigger] run(s0, env)[input] == env[input],
            grows(s0, region_steps(*b)),
            keeps_sound(s0, region_steps(*b)),
            conditionals(region_steps(*b)) == conditionals(s0) + junction_divisions(
                models.take(i as int),
            ),
            forall|j: int| 0 <= j < all@.len() ==> closed_predicate(#[trigger] models[j], variables@),
            forall|j: int|
                0 <= j < i ==> computes_predicate(region_steps(*b), input, #[trigger] models[j]),
        decreases all@.len() - i,
    {
        let ghost s1 = region_steps(*b);
        proof {
            lemma_keeps_all(s0, s1);
        }
        proof {
            assert(models[i as int] == all@[i as int]@);
        }
        let w = match lower_predicate(b, &all[i], variables) {
            Ok(w) => w,
            Err(e) => return Err(e),
        };
        proof {
            let s2 = region_steps(*b);
            lemma_grows_trans(s0, s1, s2);
            assert(models[i as int] == all@[i as int]@);
            assert forall|env: Map<Wire, Val>| #[trigger] run(s2, env)[w] == predicate_value64(
                models[i as int],
                seq![("i"@, env[input])],
            ) by {
                assert(run(s1, env)[input] == run(s0, env)[input]);
                assert(var_values(variables@, s1, env) =~= seq![("i"@, env[input])]);
            }
            assert(computes_predicate(s2, input, models[i as int]));
            assert forall|j: int| 0 <= j < i + 1 implies computes_predicate(
                s2,
                input,
                #[trigger] models[j],
            ) by {
                if j < i {
                    lemma_computes_predicate_keeps(s1, s2, input, models[j]);
                }
            }
        }
        proof {
            assert(models.take(i + 1).drop_last() =~= models.take(i as int));
        }
        i += 1;
    }
    proof {
        assert(models.take(i as int) =~= models);
    }
    Ok(())
}

proof fn lemma_divisions_upto(all: Seq<IndexModel>, k: int)
    requires
        0 <= k < all.len(),
    ensures
        all_divisions(all.take(k + 1)) == all_divisions(all.take(k)) + divisions(all[k]),
        all_divisions(all.take(0)) == 0,
{
    assert(all.take(k + 1).drop_last() =~= all.take(k));
}

proof fn lemma_predicate_divisions_upto(all: Seq<PredicateModel>, k: int)
    requires
        0 <= k < all.len(),
    ensures
        junction_divisions(all.take(k + 1)) == junction_divisions(all.take(k))
            + predicate_divisions(all[k]),
        junction_divisions(all.take(0)) == 0,
{
    assert(all.take(k + 1).drop_last() =~= all.take(k));
}

/// Two of the sample expressions are rounded divisions, and no sample predicate holds one.
proof fn lemma_sample_divisions()
    ensures
        all_divisions(sample_indices()) == 2,
        junction_divisions(sample_predicates()) == 0,
{
    let all = sample_indices();
    let twos = seq![*two(), *two()];
    assert(divisions(*two()) == 0);
    assert(all_divisions(twos) == 0) by {
        reveal_with_fuel(all_divisions, 3);
        assert(twos.drop_last().drop_last() =~= Seq::empty());
    }
    lemma_divisions_upto(all, 0);
    lemma_divisions_upto(all, 1);
    lemma_divisions_upto(all, 2);
    lemma_divisions_upto(all, 3);
    lemma_divisions_upto(all, 4);
    lemma_divisions_upto(all, 5);
    lemma_divisions_upto(all, 6);
    lemma_divisions_upto(all, 7);
    lemma_divisions_upto(all, 8);
    lemma_divisions_upto(all, 9);
    lemma_divisions_upto(all, 10);
    assert(all.take(11) =~= all);
    let yes = seq![PredicateModel::Constant(true)];
    let no = seq![PredicateModel::Constant(false)];
    assert(junction_divisions(yes) == 0) by {
        reveal_with_fuel(junction_divisions, 2);
        assert(yes.drop_last() =~= Seq::empty());
    }
    assert(junction_divisions(no) == 0) by {
        reveal_with_fuel(junction_divisions, 2);
        assert(no.drop_last() =~= Seq::empty());
    }
    assert(predicate_divisions(PredicateModel::Constant(true)) == 0);
    let ps = sample_predicates();
    lemma_predicate_divisions_upto(ps, 0);
    lemma_predicate_divisions_upto(ps, 1);
    lemma_predicate_divisions_upto(ps, 2);
    lemma_predicate_divisions_upto(ps, 3);
    lemma_predicate_divisions_upto(ps, 4);
    lemma_predicate_divisions_upto(ps, 5);
    lemma_predicate_divisions_upto(ps, 6);
    lemma_predicate_divisions_upto(ps, 7);
    lemma_predicate_divisions_upto(ps, 8);
    assert(ps.take(9) =~= ps);
}

/// The region that lowers one index expression and one predicate of each kind.
pub fn build_index_lowering_primitive() -> (r: Result<Hugr>)
    ensures
        r is Ok,
        r matches Ok(h) ==> is_index_lowering(hugr_steps(h)) && valid(Seq::empty(), hugr_steps(h)),
{
    let (mut b, input) = match new_int_region() {
        Ok(p) => p,
        Err(e) => return Err(build_error(e)),
    };
    let ghost s0 = region_steps(b);
    let mut variables: Vec<(String, Wire)> = Vec::new();
    variables.push(("i".to_owned(), input));
    proof {
        let sig = Sig { inputs: seq![Ty::Int], outputs: seq![] };
        let outs = seq![input];
        assert(outs[0] == input);
        lemma_begins(Seq::empty(), s0, sig, outs);
        assert(s0[0].outputs[0] == input);
        assert forall|env: Map<Wire, Val>| #[trigger] run(s0, env)[input] == env[input] by {
            assert(s0.drop_last() =~= Seq::empty());
            assert(run(s0.drop_last(), env) == env);
        }
    }
    let indices = index_samples();
    proof {
        assert(variables@[0].0@ == "i"@);
        assert(bound(variables@, "i"@));
        assert forall|i: int| 0 <= i < indices@.len() implies closed_index(
            #[trigger] index_models(indices@)[i],
            variables@,
        ) by {
            lemma_samples_closed(variables@, i);
        }
    }
    match lower_all_indices(&mut b, &indices, input, &variables) {
        Ok(()) => {},
        Err(e) => return Err(e),
    }
    let ghost s1 = region_steps(b);
    proof {
        lemma_keeps_all(s0, s1);
    }
    let predicates = predicate_samples();
    proof {
        assert forall|i: int| 0 <= i < predicates@.len() implies closed_predicate(
            #[trigger] predicate_models(predicates@)[i],
            variables@,
        ) by {
            lemma_predicates_closed(variables@, i);
        }
    }
    match lower_all_predicates(&mut b, &predicates, input, &variables) {
        Ok(()) => {},
        Err(e) => return Err(e),
    }
    let ghost s2 = region_steps(b);
    proof {
        lemma_grows_trans(s0, s1, s2);
        assert(s2.take(1)[0] == s0[0]);
        assert forall|i: int| 0 <= i < sample_indices().len() implies computes_index(
            s2,
            input,
            #[trigger] sample_indices()[i],
        ) by {
            lemma_computes_index_keeps(s1, s2, input, index_models(indices@)[i]);
        }
    }
    proof {
        let whole = s2.push(step(Op::Output, seq![], seq![]));
        assert(s2[0] == s0[0]);
        assert(whole.drop_last() =~= s2);
        assert(whole.last() == step(Op::Output, seq![], seq![]));
        assert(fits(Seq::empty(), s2, step(Op::Output, seq![], seq![])));
        assert(adds(
            Seq::empty(),
            s2,
            whole,
            Op::Output,
            Seq::<Wire>::empty(),
            Seq::<Wire>::empty(),
        ));
        lemma_adds(
            Seq::empty(),
            s2,
            whole,
            Op::Output,
            Seq::<Wire>::empty(),
            Seq::<Wire>::empty(),
        );
        assert forall|w: Wire| !#[trigger] pending(whole, w) by {
            if pending(whole, w) {
                assert(pending(s2, w));
                assert(pending(s1, w));
                assert(pending(s0, w));
            }
        }
        assert(valid(Seq::empty(), whole));
        lemma_sample_divisions();
        assert(s0.drop_last() =~= Seq::empty());
        assert(conditionals(s0.drop_last()) == 0);
        assert(conditionals(s0) == 0);
    }
    match finish(b) {
        Ok(h) => {
            proof {
                assert(hugr_steps(h).drop_last() =~= s2);
            }
            Ok(h)
        },
        Err(e) => Err(build_error(e)),
    }
}

} // verus!
