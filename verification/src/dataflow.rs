//! Dataflow regions as lists of operations.
//!
//! A region is the list of its operations in the order in which they were added, each with the wires
//! it reads and the wires it writes ([`Step`]). The first one writes the inputs of the region, the
//! last one of a finished region reads its outputs. What a wire carries follows from the list
//! ([`run`]), and so does whether every wire is used as its type allows ([`valid`]).
use hugr::Wire;
use vstd::prelude::*;

verus! {

/// The 64-bit integer operations that index arithmetic uses.
#[derive(Debug, Clone, Copy, PartialEq, Eq, Structural)]
pub enum IntOp {
    Add,
    Sub,
    Mul,
    Div,
    Mod,
    Min,
    Max,
    Eq,
    Ne,
    Lt,
    Le,
    Gt,
    Ge,
}

/// The Boolean operations of two operands that predicates use.
#[derive(Debug, Clone, Copy, PartialEq, Eq, Structural)]
pub enum BoolOp {
    And,
    Or,
    Xor,
}

/// The quantum operations of the primitives.
#[derive(Debug, Clone, Copy, PartialEq, Eq, Structural)]
pub enum Gate {
    H,
    MeasureFree,
    Read,
}

/// The type of a wire.
pub enum Ty {
    /// A 64-bit integer.
    Int,
    Bool,
    /// A place in an array.
    Index,
    Qubit,
    Measurement,
    /// A borrow array of so many qubits.
    Array(nat),
    /// To go on with an integer, or to leave the loop.
    Control,
}

/// A value of the type can be read any number of times. One of another type has to be read once.
pub open spec fn copyable(t: Ty) -> bool {
    !(t is Qubit || t is Array)
}

/// What a region takes and hands on.
pub struct Sig {
    pub inputs: Seq<Ty>,
    pub outputs: Seq<Ty>,
}

/// An operation of a region.
pub enum Op {
    /// Writes the inputs of the region.
    Input(Sig),
    /// Reads the outputs of the region.
    Output,
    LoadInt(int),
    LoadBool(bool),
    LoadIndex(nat),
    Int(IntOp),
    Bool(BoolOp),
    Not,
    /// One of two regions, picked by a Boolean: the first where it does not hold.
    Conditional { sig: Sig, cases: Seq<Seq<Step>> },
    /// A borrow array of `size` qubits that are all out.
    NewAllBorrowed { size: nat },
    /// Takes the qubit at an index out of a borrow array.
    Borrow { size: nat },
    /// Puts a qubit back into a borrow array.
    Return { size: nat },
    /// Drops a borrow array whose qubits are all out.
    DiscardAllBorrowed { size: nat },
    Gate(Gate),
    QAlloc,
    QFree,
    Cx,
    /// A control value that leaves the loop.
    Break,
    /// A control value that goes on with an integer.
    Continue,
    /// A region that is repeated until its control value leaves it. It takes an integer, which each
    /// round replaces, and an array of `size` qubits, which each round hands on.
    TailLoop { size: nat, body: Seq<Step> },
}

pub struct Step {
    pub op: Op,
    pub inputs: Seq<Wire>,
    pub outputs: Seq<Wire>,
}

pub open spec fn step(op: Op, inputs: Seq<Wire>, outputs: Seq<Wire>) -> Step {
    Step { op, inputs, outputs }
}

pub open spec fn compares(op: IntOp) -> bool {
    op == IntOp::Eq || op == IntOp::Ne || op == IntOp::Lt || op == IntOp::Le || op == IntOp::Gt
        || op == IntOp::Ge
}

/// The signature of the body of a loop over an array.
pub open spec fn loop_sig(size: nat) -> Sig {
    Sig { inputs: seq![Ty::Int, Ty::Array(size)], outputs: seq![Ty::Control, Ty::Array(size)] }
}

/// The types of the wires that an operation reads. What an output reads is up to its region.
pub open spec fn input_types(op: Op) -> Seq<Ty> {
    match op {
        Op::Int(_) => seq![Ty::Int, Ty::Int],
        Op::Bool(_) => seq![Ty::Bool, Ty::Bool],
        Op::Not => seq![Ty::Bool],
        Op::Conditional { sig, cases } => seq![Ty::Bool] + sig.inputs,
        Op::Borrow { size } => seq![Ty::Array(size), Ty::Index],
        Op::Return { size } => seq![Ty::Array(size), Ty::Index, Ty::Qubit],
        Op::DiscardAllBorrowed { size } => seq![Ty::Array(size)],
        Op::Gate(g) => match g {
            Gate::Read => seq![Ty::Measurement],
            _ => seq![Ty::Qubit],
        },
        Op::QFree => seq![Ty::Qubit],
        Op::Cx => seq![Ty::Qubit, Ty::Qubit],
        Op::Continue => seq![Ty::Int],
        Op::TailLoop { size, body } => seq![Ty::Int, Ty::Array(size)],
        _ => seq![],
    }
}

/// The types of the wires that an operation writes.
pub open spec fn output_types(op: Op) -> Seq<Ty> {
    match op {
        Op::Input(sig) => sig.inputs,
        Op::LoadInt(_) => seq![Ty::Int],
        Op::LoadBool(_) => seq![Ty::Bool],
        Op::LoadIndex(_) => seq![Ty::Index],
        Op::Int(op) => seq![
            if compares(op) {
                Ty::Bool
            } else {
                Ty::Int
            },
        ],
        Op::Bool(_) => seq![Ty::Bool],
        Op::Not => seq![Ty::Bool],
        Op::Conditional { sig, cases } => sig.outputs,
        Op::NewAllBorrowed { size } => seq![Ty::Array(size)],
        Op::Borrow { size } => seq![Ty::Array(size), Ty::Qubit],
        Op::Return { size } => seq![Ty::Array(size)],
        Op::Gate(g) => match g {
            Gate::H => seq![Ty::Qubit],
            Gate::MeasureFree => seq![Ty::Measurement],
            Gate::Read => seq![Ty::Bool],
        },
        Op::QAlloc => seq![Ty::Qubit],
        Op::Cx => seq![Ty::Qubit, Ty::Qubit],
        Op::Break => seq![Ty::Control],
        Op::Continue => seq![Ty::Control],
        Op::TailLoop { size, body } => seq![Ty::Array(size)],
        _ => seq![],
    }
}

/// The wire is written by one of the steps.
pub open spec fn known(steps: Seq<Step>, w: Wire) -> bool {
    exists|i: int| 0 <= i < steps.len() && (#[trigger] steps[i]).outputs.contains(w)
}

/// None of the steps reads the wire.
pub open spec fn unread(steps: Seq<Step>, w: Wire) -> bool {
    forall|i: int| 0 <= i < steps.len() ==> !(#[trigger] steps[i]).inputs.contains(w)
}

/// The type of a wire that one of the steps writes.
pub open spec fn wire_type(steps: Seq<Step>, w: Wire) -> Ty
    decreases steps.len(),
{
    if steps.len() == 0 {
        Ty::Control
    } else if steps.last().outputs.contains(w) {
        output_types(steps.last().op)[steps.last().outputs.index_of(w)]
    } else {
        wire_type(steps.drop_last(), w)
    }
}

/// The type of a wire of a region that stands in another one, of which `around` has been built.
pub open spec fn type_within(around: Seq<Step>, steps: Seq<Step>, w: Wire) -> Ty {
    if known(steps, w) {
        wire_type(steps, w)
    } else {
        wire_type(around, w)
    }
}

/// The wire can be read by a new operation: it can be copied, or it belongs to the region and no
/// operation has read it.
pub open spec fn readable(around: Seq<Step>, steps: Seq<Step>, w: Wire) -> bool {
    copyable(type_within(around, steps, w)) || (known(steps, w) && unread(steps, w))
}

/// The wires can be read by one new operation.
pub open spec fn can_read(around: Seq<Step>, steps: Seq<Step>, inputs: Seq<Wire>) -> bool {
    &&& forall|i: int| 0 <= i < inputs.len() ==> readable(around, steps, #[trigger] inputs[i])
    &&& forall|i: int, j: int|
        0 <= i < j < inputs.len() && #[trigger] inputs[i] == #[trigger] inputs[j] ==> copyable(
            type_within(around, steps, inputs[i]),
        )
}

/// The wire has to be read and has not been.
pub open spec fn pending(steps: Seq<Step>, w: Wire) -> bool {
    known(steps, w) && !copyable(wire_type(steps, w)) && unread(steps, w)
}

/// The types that an operation reads in a region.
pub open spec fn expected(steps: Seq<Step>, op: Op) -> Seq<Ty> {
    if op is Output {
        match steps[0].op {
            Op::Input(sig) => sig.outputs,
            _ => seq![],
        }
    } else {
        input_types(op)
    }
}

/// The operation can follow the steps: it reads wires that are there and have the types it takes,
/// and the regions inside it are valid.
pub open spec fn fits(around: Seq<Step>, before: Seq<Step>, s: Step) -> bool
    decreases s,
{
    &&& (s.op is Input <==> before.len() == 0)
    &&& s.outputs.len() == output_types(s.op).len()
    &&& s.inputs.len() == expected(before, s.op).len()
    &&& forall|i: int|
        0 <= i < s.inputs.len() ==> (known(before, #[trigger] s.inputs[i]) || known(
            around,
            s.inputs[i],
        ))
    &&& forall|i: int|
        0 <= i < s.inputs.len() ==> type_within(around, before, #[trigger] s.inputs[i]) == expected(
            before,
            s.op,
        )[i]
    &&& can_read(around, before, s.inputs)
    &&& match s.op {
        Op::Conditional { sig, cases } => {
            &&& cases.len() == 2
            &&& forall|k: int|
                0 <= k < cases.len() ==> cases[k].len() > 0 && (#[trigger] cases[k])[0].op
                    == Op::Input(sig) && valid(around + before, cases[k])
        },
        Op::TailLoop { size, body } => {
            &&& body.len() > 0
            &&& body[0].op == Op::Input(loop_sig(size))
            &&& valid(around + before, body)
        },
        _ => true,
    }
}

/// Every step can follow those before it.
pub open spec fn sound(around: Seq<Step>, steps: Seq<Step>) -> bool
    decreases steps, 0int,
{
    steps.len() == 0 || (sound(around, steps.drop_last()) && fits(
        around,
        steps.drop_last(),
        steps.last(),
    ))
}

/// A finished region: it ends with its outputs, every step fits, and nothing is left that has to be
/// read.
pub open spec fn valid(around: Seq<Step>, steps: Seq<Step>) -> bool
    decreases steps, 1int,
{
    &&& steps.len() > 0
    &&& steps.last().op is Output
    &&& sound(around, steps)
    &&& forall|w: Wire| !#[trigger] pending(steps, w)
}

/// What a wire carries: a signed 64-bit integer, a Boolean, a control value, or something that no
/// arithmetic reads.
pub enum Val {
    Int(int),
    Bool(bool),
    Continue(int),
    Break,
    Other,
}

/// The signed 64-bit integer that is congruent to `x`.
pub open spec fn wrap64(x: int) -> int {
    let m = x % 0x1_0000_0000_0000_0000;
    if m >= 0x8000_0000_0000_0000 {
        m - 0x1_0000_0000_0000_0000
    } else {
        m
    }
}

/// The unsigned integer with the same 64 bits.
pub open spec fn unsigned64(x: int) -> int {
    if x < 0 {
        x + 0x1_0000_0000_0000_0000
    } else {
        x
    }
}

/// The signed arithmetic of the integer operations: sums and products wrap around; a division
/// takes its divisor as unsigned, rounds down and leaves a remainder that is not negative.
pub open spec fn int_op(op: IntOp, a: int, b: int) -> Val {
    match op {
        IntOp::Add => Val::Int(wrap64(a + b)),
        IntOp::Sub => Val::Int(wrap64(a - b)),
        IntOp::Mul => Val::Int(wrap64(a * b)),
        IntOp::Div => if b == 0 {
            Val::Other
        } else {
            Val::Int(a / unsigned64(b))
        },
        IntOp::Mod => if b == 0 {
            Val::Other
        } else {
            Val::Int(wrap64(a % unsigned64(b)))
        },
        IntOp::Min => Val::Int(if a <= b { a } else { b }),
        IntOp::Max => Val::Int(if a >= b { a } else { b }),
        IntOp::Eq => Val::Bool(a == b),
        IntOp::Ne => Val::Bool(a != b),
        IntOp::Lt => Val::Bool(a < b),
        IntOp::Le => Val::Bool(a <= b),
        IntOp::Gt => Val::Bool(a > b),
        IntOp::Ge => Val::Bool(a >= b),
    }
}

pub open spec fn int_op_on(op: IntOp, a: Val, b: Val) -> Val {
    match (a, b) {
        (Val::Int(a), Val::Int(b)) => int_op(op, a, b),
        _ => Val::Other,
    }
}

pub open spec fn bool_op_on(op: BoolOp, a: Val, b: Val) -> Val {
    match (a, b) {
        (Val::Bool(a), Val::Bool(b)) => Val::Bool(
            match op {
                BoolOp::And => a && b,
                BoolOp::Or => a || b,
                BoolOp::Xor => a != b,
            },
        ),
        _ => Val::Other,
    }
}

pub open spec fn not_on(a: Val) -> Val {
    match a {
        Val::Bool(a) => Val::Bool(!a),
        _ => Val::Other,
    }
}

pub open spec fn select_on(c: Val, when_false: Val, when_true: Val) -> Val {
    match c {
        Val::Bool(c) => if c {
            when_true
        } else {
            when_false
        },
        _ => Val::Other,
    }
}

pub open spec fn value_at(v: Seq<Val>, i: int) -> Val {
    if 0 <= i < v.len() {
        v[i]
    } else {
        Val::Other
    }
}

/// The wires carry the values, and every other wire what it carried.
pub open spec fn bind(env: Map<Wire, Val>, wires: Seq<Wire>, values: Seq<Val>) -> Map<Wire, Val> {
    Map::new(
        |w: Wire| true,
        |w: Wire|
            if wires.contains(w) {
                value_at(values, wires.index_of(w))
            } else {
                env[w]
            },
    )
}

/// What an operation writes, where `env` tells what the wires around it carry.
pub open spec fn results(op: Op, ins: Seq<Val>, env: Map<Wire, Val>) -> Seq<Val>
    decreases op,
{
    match op {
        Op::LoadInt(n) => seq![Val::Int(n)],
        Op::LoadBool(b) => seq![Val::Bool(b)],
        Op::Int(op) => seq![int_op_on(op, value_at(ins, 0), value_at(ins, 1))],
        Op::Bool(op) => seq![bool_op_on(op, value_at(ins, 0), value_at(ins, 1))],
        Op::Not => seq![not_on(value_at(ins, 0))],
        Op::Conditional { sig, cases } => match value_at(ins, 0) {
            Val::Bool(c) => if cases.len() == 2 {
                if c {
                    region_results(cases[1], ins.skip(1), env)
                } else {
                    region_results(cases[0], ins.skip(1), env)
                }
            } else {
                seq![]
            },
            _ => seq![],
        },
        Op::Break => seq![Val::Break],
        Op::Continue => match value_at(ins, 0) {
            Val::Int(n) => seq![Val::Continue(n)],
            _ => seq![],
        },
        Op::TailLoop { size, body } => loop_results(
            round_of(body, env),
            value_at(ins, 0),
            value_at(ins, 1),
        ),
        _ => seq![],
    }
}

/// What a finished region hands on, given what its inputs carry.
pub open spec fn region_results(region: Seq<Step>, ins: Seq<Val>, env: Map<Wire, Val>) -> Seq<Val>
    decreases region, 0int, 0int,
{
    if region.len() == 0 {
        seq![]
    } else {
        let after = run(region.drop_last(), bind(env, region[0].outputs, ins));
        Seq::new(region.last().inputs.len(), |i: int| after[region.last().inputs[i]])
    }
}

/// One round of a loop: from the iterator and the array to the control value and the array.
pub open spec fn round_of(body: Seq<Step>, env: Map<Wire, Val>) -> spec_fn(Val, Val) -> Seq<Val>
    decreases body, 1int, 0int,
{
    |iterator: Val, array: Val| region_results(body, seq![iterator, array], env)
}

/// The array that a loop hands on when it leaves within `n` rounds.
pub open spec fn rounds(
    round: spec_fn(Val, Val) -> Seq<Val>,
    iterator: Val,
    array: Val,
    n: nat,
) -> Option<Val>
    decreases n,
{
    if n == 0 {
        None
    } else {
        let out = round(iterator, array);
        match value_at(out, 0) {
            Val::Break => Some(value_at(out, 1)),
            Val::Continue(next) => rounds(
                round,
                Val::Int(next),
                value_at(out, 1),
                (n - 1) as nat,
            ),
            _ => None,
        }
    }
}

/// A loop leaves within `n` rounds.
pub open spec fn leaves(
    round: spec_fn(Val, Val) -> Seq<Val>,
    iterator: Val,
    array: Val,
    n: nat,
) -> bool {
    rounds(round, iterator, array, n) is Some
}

/// What a loop hands on: the array, where it leaves at all.
pub open spec fn loop_results(
    round: spec_fn(Val, Val) -> Seq<Val>,
    iterator: Val,
    array: Val,
) -> Seq<Val> {
    if exists|n: nat| #[trigger] leaves(round, iterator, array, n) {
        let n = choose|n: nat| #[trigger] leaves(round, iterator, array, n);
        seq![rounds(round, iterator, array, n)->Some_0]
    } else {
        seq![]
    }
}

/// What every wire carries after the steps have run, where `env` tells what the inputs carry.
pub open spec fn run(steps: Seq<Step>, env: Map<Wire, Val>) -> Map<Wire, Val>
    decreases steps,
{
    if steps.len() == 0 {
        env
    } else {
        let before = run(steps.drop_last(), env);
        let s = steps.last();
        if s.op is Input {
            before
        } else {
            bind(
                before,
                s.outputs,
                results(
                    s.op,
                    Seq::new(s.inputs.len(), |i: int| before[s.inputs[i]]),
                    before,
                ),
            )
        }
    }
}

/// One more operation. Its wires are new, and no operation reads them.
pub open spec fn adds(
    around: Seq<Step>,
    before: Seq<Step>,
    after: Seq<Step>,
    op: Op,
    inputs: Seq<Wire>,
    outputs: Seq<Wire>,
) -> bool {
    &&& after == before.push(Step { op, inputs, outputs })
    &&& outputs.len() == output_types(op).len()
    &&& outputs.no_duplicates()
    &&& forall|w: Wire| #[trigger]
        outputs.contains(w) ==> !known(before, w) && !known(around, w) && unread(after, w)
}

/// How many of the steps are conditionals.
pub open spec fn conditionals(steps: Seq<Step>) -> nat
    decreases steps.len(),
{
    if steps.len() == 0 {
        0
    } else {
        conditionals(steps.drop_last()) + conditional_count(steps.last().op)
    }
}

pub open spec fn conditional_count(op: Op) -> nat {
    if op is Conditional {
        1
    } else {
        0
    }
}

/// `after` adds steps to `before` that write new wires only.
pub open spec fn grows(before: Seq<Step>, after: Seq<Step>) -> bool {
    &&& before.len() <= after.len()
    &&& after.take(before.len() as int) == before
    &&& forall|i: int, w: Wire|
        before.len() <= i < after.len() && #[trigger] known(before, w) ==> !(
        #[trigger] after[i]).outputs.contains(w)
}

/// `after` adds steps to `before` that fit and write nothing that has to be read.
pub open spec fn keeps_sound(before: Seq<Step>, after: Seq<Step>) -> bool {
    &&& sound(Seq::empty(), before) ==> sound(Seq::empty(), after)
    &&& forall|w: Wire| #[trigger] pending(after, w) ==> pending(before, w)
}

/// A step that writes new wires keeps what the others carry.
pub proof fn lemma_run_keeps(before: Seq<Step>, after: Seq<Step>, env: Map<Wire, Val>, w: Wire)
    requires
        grows(before, after),
        known(before, w),
    ensures
        run(after, env)[w] == run(before, env)[w],
    decreases after.len(),
{
    if after.len() == before.len() {
        assert(after.take(before.len() as int) =~= after);
    } else {
        let shorter = after.drop_last();
        lemma_grows_shorter(before, after);
        lemma_run_keeps(before, shorter, env, w);
        let s = after[after.len() - 1];
        assert(!s.outputs.contains(w));
    }
}

/// What the last step writes, and that it leaves everything else.
pub proof fn lemma_run_last(steps: Seq<Step>, env: Map<Wire, Val>, ins: Seq<Val>)
    requires
        steps.len() > 0,
        !(steps.last().op is Input),
        steps.last().outputs.no_duplicates(),
        ins.len() == steps.last().inputs.len(),
        forall|i: int|
            0 <= i < ins.len() ==> #[trigger] ins[i] == run(steps.drop_last(), env)[steps.last().inputs[i]],
    ensures
        forall|i: int|
            0 <= i < steps.last().outputs.len() ==> run(steps, env)[#[trigger] steps.last().outputs[i]]
                == value_at(results(steps.last().op, ins, run(steps.drop_last(), env)), i),
        forall|w: Wire|
            !steps.last().outputs.contains(w) ==> #[trigger] run(steps, env)[w] == run(
                steps.drop_last(),
                env,
            )[w],
{
    let before = run(steps.drop_last(), env);
    let s = steps.last();
    assert(ins =~= Seq::new(s.inputs.len(), |i: int| before[s.inputs[i]]));
    assert forall|i: int| 0 <= i < s.outputs.len() implies run(steps, env)[#[trigger] s.outputs[i]]
        == value_at(results(s.op, ins, before), i) by {
        assert(s.outputs.contains(s.outputs[i]));
        assert(s.outputs.index_of(s.outputs[i]) == i);
    }
}

proof fn lemma_grows_shorter(before: Seq<Step>, after: Seq<Step>)
    requires
        grows(before, after),
        before.len() < after.len(),
    ensures
        grows(before, after.drop_last()),
{
    let shorter = after.drop_last();
    assert(shorter.take(before.len() as int) =~= after.take(before.len() as int));
    assert forall|i: int, x: Wire|
        before.len() <= i < shorter.len() && #[trigger] known(before, x) implies !(
    #[trigger] shorter[i]).outputs.contains(x) by {
        assert(shorter[i] == after[i]);
    }
}

pub proof fn lemma_known_grows(before: Seq<Step>, after: Seq<Step>, w: Wire)
    requires
        grows(before, after),
        known(before, w),
    ensures
        known(after, w),
{
    let i = choose|i: int| 0 <= i < before.len() && (#[trigger] before[i]).outputs.contains(w);
    assert(after.take(before.len() as int)[i] == after[i]);
    assert(after[i].outputs.contains(w));
}

pub proof fn lemma_type_keeps(before: Seq<Step>, after: Seq<Step>, w: Wire)
    requires
        grows(before, after),
        known(before, w),
    ensures
        wire_type(after, w) == wire_type(before, w),
    decreases after.len(),
{
    if after.len() == before.len() {
        assert(after.take(before.len() as int) =~= after);
    } else {
        lemma_grows_shorter(before, after);
        lemma_type_keeps(before, after.drop_last(), w);
        assert(!after[after.len() - 1].outputs.contains(w));
    }
}

pub proof fn lemma_grows_trans(a: Seq<Step>, b: Seq<Step>, c: Seq<Step>)
    requires
        grows(a, b),
        grows(b, c),
    ensures
        grows(a, c),
{
    assert(c.take(a.len() as int) =~= c.take(b.len() as int).take(a.len() as int));
    assert forall|i: int, w: Wire| a.len() <= i < c.len() && #[trigger] known(a, w) implies !(
    #[trigger] c[i]).outputs.contains(w) by {
        lemma_known_grows(a, b, w);
        if i < b.len() {
            assert(c.take(b.len() as int)[i] == c[i]);
            assert(!b[i].outputs.contains(w));
        }
    }
}

pub proof fn lemma_grows_refl(a: Seq<Step>)
    ensures
        grows(a, a),
{
    assert(a.take(a.len() as int) =~= a);
}

pub proof fn lemma_keeps_all(before: Seq<Step>, after: Seq<Step>)
    requires
        grows(before, after),
    ensures
        forall|env: Map<Wire, Val>, w: Wire|
            known(before, w) ==> #[trigger] run(after, env)[w] == run(before, env)[w],
        forall|w: Wire| known(before, w) ==> #[trigger] known(after, w),
        forall|w: Wire| known(before, w) ==> #[trigger] wire_type(after, w) == wire_type(before, w),
{
    assert forall|env: Map<Wire, Val>, w: Wire| known(before, w) implies #[trigger] run(
        after,
        env,
    )[w] == run(before, env)[w] by {
        lemma_run_keeps(before, after, env, w);
    }
    assert forall|w: Wire| known(before, w) implies #[trigger] known(after, w) by {
        lemma_known_grows(before, after, w);
    }
    assert forall|w: Wire| known(before, w) implies #[trigger] wire_type(after, w) == wire_type(
        before,
        w,
    ) by {
        lemma_type_keeps(before, after, w);
    }
}

/// One more operation: its wires, and that everything else stays.
pub proof fn lemma_adds(
    around: Seq<Step>,
    before: Seq<Step>,
    after: Seq<Step>,
    op: Op,
    inputs: Seq<Wire>,
    outputs: Seq<Wire>,
)
    requires
        adds(around, before, after, op, inputs, outputs),
        !(op is Input),
    ensures
        grows(before, after),
        conditionals(after) == conditionals(before) + conditional_count(op),
        sound(around, before) && fits(around, before, Step { op, inputs, outputs }) ==> sound(
            around,
            after,
        ),
        forall|w: Wire| #[trigger] known(after, w) <==> known(before, w) || outputs.contains(w),
        forall|i: int|
            0 <= i < outputs.len() ==> known(after, #[trigger] outputs[i]) && !known(
                before,
                outputs[i],
            ) && !known(around, outputs[i]) && unread(after, outputs[i]) && wire_type(
                after,
                outputs[i],
            ) == output_types(op)[i],
        forall|w: Wire| known(before, w) ==> #[trigger] wire_type(after, w) == wire_type(before, w),
        forall|w: Wire|
            known(before, w) ==> (#[trigger] unread(after, w) <==> unread(before, w)
                && !inputs.contains(w)),
        forall|w: Wire| #[trigger]
            pending(after, w) ==> (pending(before, w) && !inputs.contains(w)) || (outputs.contains(w)
                && !copyable(output_types(op)[outputs.index_of(w)])),
        forall|env: Map<Wire, Val>, i: int|
            0 <= i < outputs.len() ==> #[trigger] run(after, env)[outputs[i]] == value_at(
                results(
                    op,
                    Seq::new(inputs.len(), |j: int| run(before, env)[inputs[j]]),
                    run(before, env),
                ),
                i,
            ),
{
    let s = Step { op, inputs, outputs };
    assert(after.take(before.len() as int) =~= before);
    assert(after.drop_last() =~= before);
    assert(after.last() == s);
    assert(after[before.len() as int] == s);
    assert forall|i: int, x: Wire|
        before.len() <= i < after.len() && #[trigger] known(before, x) implies !(
    #[trigger] after[i]).outputs.contains(x) by {
        assert(after[i] == s);
    }
    assert forall|w: Wire| #[trigger] known(after, w) <==> known(before, w) || outputs.contains(
        w,
    ) by {
        if known(before, w) {
            lemma_known_grows(before, after, w);
        }
        if outputs.contains(w) {
            assert(after[before.len() as int].outputs.contains(w));
        }
        if known(after, w) {
            let i = choose|i: int| 0 <= i < after.len() && (#[trigger] after[i]).outputs.contains(w);
            if i < before.len() {
                assert(before[i] == after[i]);
            }
        }
    }
    assert forall|w: Wire| known(before, w) implies (#[trigger] unread(after, w) <==> unread(
        before,
        w,
    ) && !inputs.contains(w)) by {
        if unread(after, w) {
            assert forall|i: int| 0 <= i < before.len() implies !(
            #[trigger] before[i]).inputs.contains(w) by {
                assert(after[i] == before[i]);
            }
            assert(!after[before.len() as int].inputs.contains(w));
        }
        if unread(before, w) && !inputs.contains(w) {
            assert forall|i: int| 0 <= i < after.len() implies !(
            #[trigger] after[i]).inputs.contains(w) by {
                if i < before.len() {
                    assert(after[i] == before[i]);
                }
            }
        }
    }
    assert forall|i: int| 0 <= i < outputs.len() implies known(after, #[trigger] outputs[i])
        && !known(before, outputs[i]) && !known(around, outputs[i]) && unread(after, outputs[i])
        && wire_type(after, outputs[i]) == output_types(op)[i] by {
        assert(outputs.contains(outputs[i]));
        assert(outputs.index_of(outputs[i]) == i);
    }
    assert forall|env: Map<Wire, Val>, i: int| 0 <= i < outputs.len() implies #[trigger] run(
        after,
        env,
    )[outputs[i]] == value_at(
        results(
            op,
            Seq::new(inputs.len(), |j: int| run(before, env)[inputs[j]]),
            run(before, env),
        ),
        i,
    ) by {
        assert(outputs.contains(outputs[i]));
        assert(outputs.index_of(outputs[i]) == i);
    }
}

} // verus!
