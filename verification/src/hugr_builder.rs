//! The builders of HUGR dataflow, as far as the lowering uses them.
//!
//! A builder adds an operation wherever its wires can be read: a wire that can be copied, or one of
//! the region itself that no operation has read yet. It does not look at the types then; those are
//! checked when the whole is finished.
use crate::dataflow::{
    adds, can_read, copyable, fits, known, loop_sig, pending, sound, unread, valid, wire_type,
    BoolOp, Gate, IntOp, Op, Sig, Step, Ty,
};
use hugr::builder::{
    BuildError, CaseBuilder, ConditionalBuilder, DFGBuilder, Dataflow, DataflowHugr,
    DataflowSubContainer, HugrBuilder, SubContainer, TailLoopBuilder,
};
use hugr::extension::prelude::{bool_t, qb_t, ConstUsize};
use hugr::ops::{TailLoop, Value};
use hugr::std_extensions::arithmetic::int_ops::IntOpDef;
use hugr::std_extensions::arithmetic::int_types::{ConstInt, INT_TYPES};
use hugr::std_extensions::collections::borrow_array::{borrow_array_type, BArrayOpBuilder};
use hugr::std_extensions::logic::LogicOp;
use hugr::types::Signature;
use hugr::{Hugr, Wire};
use tket::extension::measurement::MeasurementOp;
use tket::TketOp;
use vstd::prelude::*;

verus! {

#[verifier::external_type_specification]
#[verifier::external_body]
pub struct ExHugr(hugr::Hugr);

#[verifier::external_type_specification]
#[verifier::external_body]
pub struct ExNode(hugr::Node);

#[verifier::external_type_specification]
#[verifier::external_body]
#[verifier::reject_recursive_types(N)]
pub struct ExWire<N>(hugr::Wire<N>);

#[verifier::external_type_specification]
#[verifier::external_body]
pub struct ExBuildError(hugr::builder::BuildError);

#[verifier::external_type_specification]
#[verifier::external_body]
#[verifier::reject_recursive_types(T)]
pub struct ExDFGBuilder<T>(hugr::builder::DFGBuilder<T>);

#[verifier::external_type_specification]
#[verifier::external_body]
#[verifier::reject_recursive_types(B)]
#[verifier::reject_recursive_types(T)]
pub struct ExDFGWrapper<B, T>(hugr::builder::DFGWrapper<B, T>);

#[verifier::external_type_specification]
#[verifier::external_body]
#[verifier::reject_recursive_types(T)]
pub struct ExConditionalBuilder<T>(hugr::builder::ConditionalBuilder<T>);

#[verifier::external_type_specification]
#[verifier::external_body]
#[verifier::reject_recursive_types(T)]
pub struct ExBuildHandle<T>(hugr::builder::BuildHandle<T>);

#[verifier::external_type_specification]
#[verifier::external_body]
#[verifier::reject_recursive_types(N)]
pub struct ExTailLoopID<N>(hugr::ops::handle::TailLoopID<N>);

#[verifier::external_type_specification]
#[verifier::external_body]
#[verifier::reject_recursive_types(N)]
pub struct ExCaseID<N>(hugr::ops::handle::CaseID<N>);

/// The body of a loop under construction.
pub struct LoopView {
    /// What the region around the loop held when the loop was opened.
    pub around: Seq<Step>,
    pub size: nat,
    pub steps: Seq<Step>,
    /// The body that the loop is going to have when the builder is given up.
    pub body: Seq<Step>,
    /// The wire by which the loop hands its array on.
    pub output: Wire,
}

/// A conditional under construction.
pub struct ChoiceView {
    pub around: Seq<Step>,
    pub sig: Sig,
    /// The cases that have been opened, each as it is going to be.
    pub built: Seq<Option<Seq<Step>>>,
    /// The cases that the conditional is going to have when the builder is given up.
    pub cases: Seq<Seq<Step>>,
    pub outputs: Seq<Wire>,
}

/// A case under construction.
pub struct CaseView {
    pub around: Seq<Step>,
    pub steps: Seq<Step>,
    /// The steps that the case is going to have when the builder is given up.
    pub body: Seq<Step>,
}

/// The operations that have been added to a region, in order.
pub uninterp spec fn region_steps(b: DFGBuilder<Hugr>) -> Seq<Step>;

/// What a loop under construction holds.
pub uninterp spec fn loop_view(t: TailLoopBuilder<&mut Hugr>) -> LoopView;

/// What a conditional under construction holds.
pub uninterp spec fn choice_view(c: ConditionalBuilder<&mut Hugr>) -> ChoiceView;

/// What a case under construction holds.
pub uninterp spec fn case_view(c: CaseBuilder<&mut Hugr>) -> CaseView;

/// The operations of a finished region, in order.
pub uninterp spec fn hugr_steps(h: Hugr) -> Seq<Step>;

/// A region that holds nothing but its inputs.
pub open spec fn begins(around: Seq<Step>, steps: Seq<Step>, sig: Sig, inputs: Seq<Wire>) -> bool {
    adds(around, Seq::empty(), steps, Op::Input(sig), Seq::empty(), inputs)
}

/// The operation was added exactly where its wires can be read.
pub open spec fn added(
    around: Seq<Step>,
    before: Seq<Step>,
    after: Seq<Step>,
    op: Op,
    inputs: Seq<Wire>,
    outputs: Option<Seq<Wire>>,
) -> bool {
    &&& outputs is Some <==> can_read(around, before, inputs)
    &&& outputs matches Some(o) ==> adds(around, before, after, op, inputs, o)
}

pub open spec fn single(r: core::result::Result<Wire, BuildError>) -> Option<Seq<Wire>> {
    match r {
        Ok(w) => Some(seq![w]),
        Err(_) => None,
    }
}

pub open spec fn double(r: core::result::Result<(Wire, Wire), BuildError>) -> Option<Seq<Wire>> {
    match r {
        Ok((v, w)) => Some(seq![v, w]),
        Err(_) => None,
    }
}

pub open spec fn nothing(r: core::result::Result<(), BuildError>) -> Option<Seq<Wire>> {
    match r {
        Ok(_) => Some(seq![]),
        Err(_) => None,
    }
}

/// The signature of a region.
pub open spec fn region_sig(steps: Seq<Step>) -> Sig {
    match steps[0].op {
        Op::Input(sig) => sig,
        _ => Sig { inputs: seq![], outputs: seq![] },
    }
}

/// `BuildError::to_string`: the text of a build error, as its `Display` prints it. Nothing is said
/// of the text: a build error is opaque.
#[verifier::external_body]
pub(crate) fn build_error_text(e: BuildError) -> (r: String) {
    e.to_string()
}

/// `Dataflow::add_load_value` of `ConstInt::new_s` with log-width 6: loads a signed 64-bit constant.
/// Every `i64` is a value of that width, so that the constant is always made.
#[verifier::external_body]
pub(crate) fn load_int(b: &mut DFGBuilder<Hugr>, value: i64) -> (w: Wire)
    ensures
        adds(
            Seq::empty(),
            region_steps(*old(b)),
            region_steps(*final(b)),
            Op::LoadInt(value as int),
            seq![],
            seq![w],
        ),
{
    b.add_load_value(ConstInt::new_s(6, value).unwrap())
}

/// `Dataflow::add_load_value` of `Value::true_val` or `Value::false_val`: loads a Boolean constant.
#[verifier::external_body]
pub(crate) fn load_bool(b: &mut DFGBuilder<Hugr>, value: bool) -> (w: Wire)
    ensures
        adds(
            Seq::empty(),
            region_steps(*old(b)),
            region_steps(*final(b)),
            Op::LoadBool(value),
            seq![],
            seq![w],
        ),
{
    b.add_load_value(Value::from_bool(value))
}

/// `Dataflow::add_load_value` of `ConstUsize::new`: loads an array index.
#[verifier::external_body]
pub(crate) fn load_index(b: &mut DFGBuilder<Hugr>, value: u64) -> (w: Wire)
    ensures
        adds(
            Seq::empty(),
            region_steps(*old(b)),
            region_steps(*final(b)),
            Op::LoadIndex(value as nat),
            seq![],
            seq![w],
        ),
{
    b.add_load_value(ConstUsize::new(value))
}

/// `Dataflow::add_dataflow_op` of an `IntOpDef` with log-width 6: a 64-bit integer operation on two
/// wires of the region.
#[verifier::external_body]
pub(crate) fn binary_int_op(b: &mut DFGBuilder<Hugr>, op: IntOp, lhs: Wire, rhs: Wire) -> (r:
    core::result::Result<Wire, BuildError>)
    requires
        known(region_steps(*old(b)), lhs),
        known(region_steps(*old(b)), rhs),
    ensures
        added(
            Seq::empty(),
            region_steps(*old(b)),
            region_steps(*final(b)),
            Op::Int(op),
            seq![lhs, rhs],
            single(r),
        ),
{
    let def = match op {
        IntOp::Add => IntOpDef::iadd, IntOp::Sub => IntOpDef::isub, IntOp::Mul => IntOpDef::imul,
        IntOp::Div => IntOpDef::idiv_s, IntOp::Mod => IntOpDef::imod_s,
        IntOp::Min => IntOpDef::imin_s, IntOp::Max => IntOpDef::imax_s,
        IntOp::Eq => IntOpDef::ieq, IntOp::Ne => IntOpDef::ine, IntOp::Lt => IntOpDef::ilt_s,
        IntOp::Le => IntOpDef::ile_s, IntOp::Gt => IntOpDef::igt_s, IntOp::Ge => IntOpDef::ige_s,
    };
    Ok(b.add_dataflow_op(def.with_log_width(6), [lhs, rhs])?.out_wire(0))
}

/// `Dataflow::add_dataflow_op` of a `LogicOp` on two wires of the region.
#[verifier::external_body]
pub(crate) fn binary_bool_op(b: &mut DFGBuilder<Hugr>, op: BoolOp, lhs: Wire, rhs: Wire) -> (r:
    core::result::Result<Wire, BuildError>)
    requires
        known(region_steps(*old(b)), lhs),
        known(region_steps(*old(b)), rhs),
    ensures
        added(
            Seq::empty(),
            region_steps(*old(b)),
            region_steps(*final(b)),
            Op::Bool(op),
            seq![lhs, rhs],
            single(r),
        ),
{
    let op = match op {
        BoolOp::And => LogicOp::And,
        BoolOp::Or => LogicOp::Or,
        BoolOp::Xor => LogicOp::Xor,
    };
    Ok(b.add_dataflow_op(op, [lhs, rhs])?.out_wire(0))
}

/// `Dataflow::add_dataflow_op` of `LogicOp::Not` on a wire of the region.
#[verifier::external_body]
pub(crate) fn not_op(b: &mut DFGBuilder<Hugr>, value: Wire) -> (r: core::result::Result<
    Wire,
    BuildError,
>)
    requires
        known(region_steps(*old(b)), value),
    ensures
        added(
            Seq::empty(),
            region_steps(*old(b)),
            region_steps(*final(b)),
            Op::Not,
            seq![value],
            single(r),
        ),
{
    Ok(b.add_dataflow_op(LogicOp::Not, [value])?.out_wire(0))
}

/// The signature of a choice between two integers.
pub open spec fn int_choice_sig() -> Sig {
    Sig { inputs: seq![Ty::Int, Ty::Int], outputs: seq![Ty::Int] }
}

/// A conditional has been opened, and none of its two cases.
pub open spec fn opens(
    c: ChoiceView,
    around: Seq<Step>,
    before: Seq<Step>,
    after: Seq<Step>,
    sig: Sig,
    inputs: Seq<Wire>,
) -> bool {
    &&& c.around == around + before
    &&& c.sig == sig
    &&& c.built == seq![None::<Seq<Step>>, None]
    &&& adds(
        around,
        before,
        after,
        Op::Conditional { sig, cases: c.cases },
        inputs,
        c.outputs,
    )
}

/// `Dataflow::conditional_builder` over a Boolean, with two integers for its cases and an integer to
/// hand on. The conditional is one operation of the region; its cases are yet to be built.
#[verifier::external_body]
pub(crate) fn open_int_choice<'a>(
    b: &'a mut DFGBuilder<Hugr>,
    condition: Wire,
    first: Wire,
    second: Wire,
) -> (r: core::result::Result<ConditionalBuilder<&'a mut Hugr>, BuildError>)
    requires
        known(region_steps(*old(b)), condition),
        known(region_steps(*old(b)), first),
        known(region_steps(*old(b)), second),
    ensures
        r is Ok <==> can_read(
            Seq::empty(),
            region_steps(*old(b)),
            seq![condition, first, second],
        ),
        r matches Ok(c) ==> opens(
            choice_view(c),
            Seq::empty(),
            region_steps(*old(b)),
            region_steps(*final(b)),
            int_choice_sig(),
            seq![condition, first, second],
        ),
{
    let ty = INT_TYPES[6].clone();
    let rows = [Vec::new().into(), Vec::new().into()];
    let inputs = [(ty.clone(), first), (ty.clone(), second)];
    b.conditional_builder((rows, condition), inputs, [ty].into())
}

/// `Dataflow::conditional_builder` over a Boolean in the body of a loop, with an integer and the
/// array for its cases, and what the body hands on (`TailLoopBuilder::internal_output_row`) to hand
/// on.
#[verifier::external_body]
pub(crate) fn open_loop_choice<'a, 'b>(
    t: &'b mut TailLoopBuilder<&'a mut Hugr>,
    size: u64,
    condition: Wire,
    next: Wire,
    array: Wire,
) -> (r: core::result::Result<ConditionalBuilder<&'b mut Hugr>, BuildError>)
    requires
        known(loop_view(*old(t)).steps, condition),
        known(loop_view(*old(t)).steps, next),
        known(loop_view(*old(t)).steps, array),
        size as nat == loop_view(*old(t)).size,
    ensures
        r is Ok <==> can_read(
            loop_view(*old(t)).around,
            loop_view(*old(t)).steps,
            seq![condition, next, array],
        ),
        loop_view(*final(t)) == (LoopView {
            steps: loop_view(*final(t)).steps,
            ..loop_view(*old(t))
        }),
        r matches Ok(c) ==> opens(
            choice_view(c),
            loop_view(*old(t)).around,
            loop_view(*old(t)).steps,
            loop_view(*final(t)).steps,
            loop_sig(size as nat),
            seq![condition, next, array],
        ),
{
    let rows = [Vec::new().into(), Vec::new().into()];
    let array = (borrow_array_type(size, qb_t()), array);
    let inputs = [(INT_TYPES[6].clone(), next), array];
    let row = t.internal_output_row()?;
    t.conditional_builder((rows, condition), inputs, row)
}

/// `ConditionalBuilder::case_builder`: opens the case at a position, which begins with its two
/// inputs. A position is opened once.
#[verifier::external_body]
pub(crate) fn open_case<'a, 'b>(c: &'b mut ConditionalBuilder<&'a mut Hugr>, position: usize) -> (r:
    core::result::Result<(CaseBuilder<&'b mut Hugr>, Wire, Wire), BuildError>)
    requires
        position < choice_view(*old(c)).built.len(),
        choice_view(*old(c)).sig.inputs.len() == 2,
    ensures
        r is Ok <==> choice_view(*old(c)).built[position as int] is None,
        r matches Ok((k, first, second)) ==> {
            &&& begins(
                choice_view(*old(c)).around,
                case_view(k).steps,
                choice_view(*old(c)).sig,
                seq![first, second],
            )
            &&& case_view(k).around == choice_view(*old(c)).around
            &&& choice_view(*final(c)) == (ChoiceView {
                built: choice_view(*old(c)).built.update(
                    position as int,
                    Some(case_view(k).body),
                ),
                ..choice_view(*old(c))
            })
        },
{
    let k = c.case_builder(position)?;
    let [first, second] = k.input_wires_arr();
    Ok((k, first, second))
}

/// `Dataflow::make_break` for a loop that carries an integer: a control value that leaves the loop.
#[verifier::external_body]
pub(crate) fn case_break<'b>(k: &mut CaseBuilder<&'b mut Hugr>) -> (r: core::result::Result<
    Wire,
    BuildError,
>)
    ensures
        case_view(*final(k)) == (CaseView {
            steps: case_view(*final(k)).steps,
            ..case_view(*old(k))
        }),
        added(
            case_view(*old(k)).around,
            case_view(*old(k)).steps,
            case_view(*final(k)).steps,
            Op::Break,
            seq![],
            single(r),
        ),
{
    let carried = [INT_TYPES[6].clone()].into();
    let sig = TailLoop { just_inputs: carried, just_outputs: [].into(), rest: [].into() };
    k.make_break(sig, [])
}

/// `Dataflow::make_continue` for a loop that carries an integer: a control value that goes on with
/// the next one.
#[verifier::external_body]
pub(crate) fn case_continue<'b>(k: &mut CaseBuilder<&'b mut Hugr>, next: Wire) -> (r:
    core::result::Result<Wire, BuildError>)
    requires
        known(case_view(*old(k)).steps, next),
    ensures
        case_view(*final(k)) == (CaseView {
            steps: case_view(*final(k)).steps,
            ..case_view(*old(k))
        }),
        added(
            case_view(*old(k)).around,
            case_view(*old(k)).steps,
            case_view(*final(k)).steps,
            Op::Continue,
            seq![next],
            single(r),
        ),
{
    let carried = [INT_TYPES[6].clone()].into();
    let sig = TailLoop { just_inputs: carried, just_outputs: [].into(), rest: [].into() };
    k.make_continue(sig, [next])
}

/// `DataflowSubContainer::finish_with_outputs`: the case is as it has been built, and hands on the
/// wires.
#[verifier::external_body]
pub(crate) fn finish_case<'b>(k: CaseBuilder<&'b mut Hugr>, outputs: Vec<Wire>) -> (r:
    core::result::Result<(), BuildError>)
    requires
        forall|i: int| 0 <= i < outputs@.len() ==> known(case_view(k).steps, #[trigger] outputs@[i]),
        outputs@.len() == region_sig(case_view(k).steps).outputs.len(),
    ensures
        r is Ok <==> can_read(case_view(k).around, case_view(k).steps, outputs@),
        r is Ok ==> case_view(k).body == case_view(k).steps.push(
            Step { op: Op::Output, inputs: outputs@, outputs: seq![] },
        ),
{
    k.finish_with_outputs(outputs)?;
    Ok(())
}

/// `SubContainer::finish_sub_container` of a conditional: it has the cases that have been built,
/// all of which have to be there.
#[verifier::external_body]
pub(crate) fn close_choice<'a>(c: ConditionalBuilder<&'a mut Hugr>) -> (r: core::result::Result<
    Vec<Wire>,
    BuildError,
>)
    ensures
        r is Ok <==> forall|i: int|
            0 <= i < choice_view(c).built.len() ==> (#[trigger] choice_view(c).built[i]) is Some,
        r matches Ok(outputs) ==> {
            &&& outputs@ == choice_view(c).outputs
            &&& choice_view(c).cases == Seq::new(
                choice_view(c).built.len(),
                |i: int| choice_view(c).built[i]->Some_0,
            )
        },
{
    Ok(c.finish_sub_container()?.outputs().collect())
}

/// `DFGBuilder::new` with the signature `[array of qubits] -> [array of qubits]`: a region whose
/// one input is a borrow array of `size` qubits.
#[verifier::external_body]
pub(crate) fn new_array_region(size: u64) -> (r: core::result::Result<
    (DFGBuilder<Hugr>, Wire),
    BuildError,
>)
    ensures
        r is Ok,
        r matches Ok((b, w)) ==> begins(
            Seq::empty(),
            region_steps(b),
            Sig { inputs: seq![Ty::Array(size as nat)], outputs: seq![Ty::Array(size as nat)] },
            seq![w],
        ),
{
    let b = DFGBuilder::new(Signature::new_endo([borrow_array_type(size, qb_t())]))?;
    let [w] = b.input_wires_arr();
    Ok((b, w))
}

/// `DFGBuilder::new` with the signature `[64-bit integer] -> []`: a region whose one input is an
/// integer.
#[verifier::external_body]
pub(crate) fn new_int_region() -> (r: core::result::Result<(DFGBuilder<Hugr>, Wire), BuildError>)
    ensures
        r is Ok,
        r matches Ok((b, w)) ==> begins(
            Seq::empty(),
            region_steps(b),
            Sig { inputs: seq![Ty::Int], outputs: seq![] },
            seq![w],
        ),
{
    let b = DFGBuilder::new(Signature::new([INT_TYPES[6].clone()], []))?;
    let [w] = b.input_wires_arr();
    Ok((b, w))
}

/// `DFGBuilder::new` with the signature `[] -> [Boolean]`: a region without inputs.
#[verifier::external_body]
pub(crate) fn new_bool_region() -> (r: core::result::Result<DFGBuilder<Hugr>, BuildError>)
    ensures
        r is Ok,
        r matches Ok(b) ==> begins(
            Seq::empty(),
            region_steps(b),
            Sig { inputs: seq![], outputs: seq![Ty::Bool] },
            seq![],
        ),
{
    DFGBuilder::new(Signature::new([], [bool_t()]))
}

/// `DataflowHugr::finish_hugr_with_outputs`: a region that hands on one wire. It is validated, which
/// succeeds where every wire has the type that is read from it and every wire that cannot be copied
/// is read once.
#[verifier::external_body]
pub(crate) fn finish_with(b: DFGBuilder<Hugr>, output: Wire) -> (r: core::result::Result<
    Hugr,
    BuildError,
>)
    requires
        known(region_steps(b), output),
        region_sig(region_steps(b)).outputs.len() == 1,
    ensures
        valid(
            Seq::empty(),
            region_steps(b).push(Step { op: Op::Output, inputs: seq![output], outputs: seq![] }),
        ) ==> r is Ok,
        r matches Ok(h) ==> hugr_steps(h) == region_steps(b).push(
            Step { op: Op::Output, inputs: seq![output], outputs: seq![] },
        ),
{
    b.finish_hugr_with_outputs([output])
}

/// `HugrBuilder::finish_hugr`: a region that hands on nothing, validated as in [`finish_with`].
#[verifier::external_body]
pub(crate) fn finish(b: DFGBuilder<Hugr>) -> (r: core::result::Result<Hugr, BuildError>)
    ensures
        valid(
            Seq::empty(),
            region_steps(b).push(Step { op: Op::Output, inputs: seq![], outputs: seq![] }),
        ) ==> r is Ok,
        r matches Ok(h) ==> hugr_steps(h) == region_steps(b).push(
            Step { op: Op::Output, inputs: seq![], outputs: seq![] },
        ),
{
    Ok(b.finish_hugr()?)
}

/// `BArrayOpBuilder::add_borrow_array_borrow`: takes a qubit out of an array; the array comes first.
#[verifier::external_body]
pub(crate) fn borrow_qubit(b: &mut DFGBuilder<Hugr>, size: u64, array: Wire, index: Wire) -> (r:
    core::result::Result<(Wire, Wire), BuildError>)
    requires
        known(region_steps(*old(b)), array),
        known(region_steps(*old(b)), index),
    ensures
        added(
            Seq::empty(),
            region_steps(*old(b)),
            region_steps(*final(b)),
            Op::Borrow { size: size as nat },
            seq![array, index],
            double(r),
        ),
{
    b.add_borrow_array_borrow(qb_t(), size, array, index)
}

/// `BArrayOpBuilder::add_borrow_array_return`: puts a qubit back into an array.
#[verifier::external_body]
pub(crate) fn return_qubit(
    b: &mut DFGBuilder<Hugr>,
    size: u64,
    array: Wire,
    index: Wire,
    qubit: Wire,
) -> (r: core::result::Result<Wire, BuildError>)
    requires
        known(region_steps(*old(b)), array),
        known(region_steps(*old(b)), index),
        known(region_steps(*old(b)), qubit),
    ensures
        added(
            Seq::empty(),
            region_steps(*old(b)),
            region_steps(*final(b)),
            Op::Return { size: size as nat },
            seq![array, index, qubit],
            single(r),
        ),
{
    b.add_borrow_array_return(qb_t(), size, array, index, qubit)
}

/// `BArrayOpBuilder::add_new_all_borrowed`: an array whose qubits are all out.
#[verifier::external_body]
pub(crate) fn new_all_borrowed(b: &mut DFGBuilder<Hugr>, size: u64) -> (r: core::result::Result<
    Wire,
    BuildError,
>)
    ensures
        added(
            Seq::empty(),
            region_steps(*old(b)),
            region_steps(*final(b)),
            Op::NewAllBorrowed { size: size as nat },
            seq![],
            single(r),
        ),
{
    b.add_new_all_borrowed(qb_t(), size)
}

/// `BArrayOpBuilder::add_discard_all_borrowed`: drops an array whose qubits are all out.
#[verifier::external_body]
pub(crate) fn discard_all_borrowed(b: &mut DFGBuilder<Hugr>, size: u64, array: Wire) -> (r:
    core::result::Result<(), BuildError>)
    requires
        known(region_steps(*old(b)), array),
    ensures
        added(
            Seq::empty(),
            region_steps(*old(b)),
            region_steps(*final(b)),
            Op::DiscardAllBorrowed { size: size as nat },
            seq![array],
            nothing(r),
        ),
{
    b.add_discard_all_borrowed(qb_t(), size, array)
}

/// `Dataflow::add_dataflow_op` of `TketOp::H`, `TketOp::MeasureFree` or `MeasurementOp::Read` on one
/// wire.
#[verifier::external_body]
pub(crate) fn apply_gate(b: &mut DFGBuilder<Hugr>, gate: Gate, input: Wire) -> (r:
    core::result::Result<Wire, BuildError>)
    requires
        known(region_steps(*old(b)), input),
    ensures
        added(
            Seq::empty(),
            region_steps(*old(b)),
            region_steps(*final(b)),
            Op::Gate(gate),
            seq![input],
            single(r),
        ),
{
    let handle = match gate {
        Gate::H => b.add_dataflow_op(TketOp::H, [input])?,
        Gate::MeasureFree => b.add_dataflow_op(TketOp::MeasureFree, [input])?,
        Gate::Read => b.add_dataflow_op(MeasurementOp::Read, [input])?,
    };
    Ok(handle.out_wire(0))
}

/// `Dataflow::add_dataflow_op` of `TketOp::QAlloc`: a new qubit.
#[verifier::external_body]
pub(crate) fn allocate(b: &mut DFGBuilder<Hugr>) -> (r: core::result::Result<Wire, BuildError>)
    ensures
        added(
            Seq::empty(),
            region_steps(*old(b)),
            region_steps(*final(b)),
            Op::QAlloc,
            seq![],
            single(r),
        ),
{
    Ok(b.add_dataflow_op(TketOp::QAlloc, [])?.out_wire(0))
}

/// `Dataflow::add_dataflow_op` of `TketOp::QFree`: drops a qubit.
#[verifier::external_body]
pub(crate) fn free(b: &mut DFGBuilder<Hugr>, qubit: Wire) -> (r: core::result::Result<(), BuildError>)
    requires
        known(region_steps(*old(b)), qubit),
    ensures
        added(
            Seq::empty(),
            region_steps(*old(b)),
            region_steps(*final(b)),
            Op::QFree,
            seq![qubit],
            nothing(r),
        ),
{
    b.add_dataflow_op(TketOp::QFree, [qubit])?;
    Ok(())
}

/// `Dataflow::add_dataflow_op` of `TketOp::CX` on two qubits.
#[verifier::external_body]
pub(crate) fn controlled_x(b: &mut DFGBuilder<Hugr>, left: Wire, right: Wire) -> (r:
    core::result::Result<(Wire, Wire), BuildError>)
    requires
        known(region_steps(*old(b)), left),
        known(region_steps(*old(b)), right),
    ensures
        added(
            Seq::empty(),
            region_steps(*old(b)),
            region_steps(*final(b)),
            Op::Cx,
            seq![left, right],
            double(r),
        ),
{
    let [l, r] = b.add_dataflow_op(TketOp::CX, [left, right])?.outputs_arr();
    Ok((l, r))
}

/// `Dataflow::tail_loop_builder` with an integer that each round replaces and an array that each
/// round hands on. The loop is one operation of the region, and its body begins with its two inputs.
#[verifier::external_body]
pub(crate) fn open_loop<'a>(b: &'a mut DFGBuilder<Hugr>, size: u64, start: Wire, array: Wire) -> (r:
    core::result::Result<(TailLoopBuilder<&'a mut Hugr>, Wire, Wire), BuildError>)
    requires
        known(region_steps(*old(b)), start),
        known(region_steps(*old(b)), array),
    ensures
        r is Ok <==> can_read(Seq::empty(), region_steps(*old(b)), seq![start, array]),
        r matches Ok((t, iterator, inner)) ==> {
            &&& loop_view(t).around == region_steps(*old(b))
            &&& loop_view(t).size == size as nat
            &&& begins(
                loop_view(t).around,
                loop_view(t).steps,
                loop_sig(size as nat),
                seq![iterator, inner],
            )
            &&& adds(
                Seq::empty(),
                region_steps(*old(b)),
                region_steps(*final(b)),
                Op::TailLoop { size: size as nat, body: loop_view(t).body },
                seq![start, array],
                seq![loop_view(t).output],
            )
        },
{
    let row = [(borrow_array_type(size, qb_t()), array)];
    let t = b.tail_loop_builder([(INT_TYPES[6].clone(), start)], row, [].into())?;
    let [iterator, inner] = t.input_wires_arr();
    Ok((t, iterator, inner))
}

/// `Dataflow::add_dataflow_op` of an `IntOpDef` with log-width 6, in the body of a loop: on a wire
/// of the body and one of the region around it.
#[verifier::external_body]
pub(crate) fn loop_int_op<'a>(t: &mut TailLoopBuilder<&'a mut Hugr>, op: IntOp, lhs: Wire, rhs: Wire) -> (r:
    core::result::Result<Wire, BuildError>)
    requires
        op == IntOp::Lt || op == IntOp::Add,
        known(loop_view(*old(t)).steps, lhs),
        known(loop_view(*old(t)).around, rhs),
    ensures
        loop_view(*final(t)) == (LoopView {
            steps: loop_view(*final(t)).steps,
            ..loop_view(*old(t))
        }),
        added(
            loop_view(*old(t)).around,
            loop_view(*old(t)).steps,
            loop_view(*final(t)).steps,
            Op::Int(op),
            seq![lhs, rhs],
            single(r),
        ),
{
    let def = match op {
        IntOp::Lt => IntOpDef::ilt_s,
        _ => IntOpDef::iadd,
    };
    Ok(t.add_dataflow_op(def.with_log_width(6), [lhs, rhs])?.out_wire(0))
}

/// `TailLoopBuilder::finish_with_outputs`: the body is as it has been built, and hands on a control
/// value and the array.
#[verifier::external_body]
pub(crate) fn close_loop<'a>(t: TailLoopBuilder<&'a mut Hugr>, control: Wire, array: Wire) -> (r:
    core::result::Result<Wire, BuildError>)
    requires
        known(loop_view(t).steps, control),
        known(loop_view(t).steps, array),
    ensures
        r is Ok <==> can_read(loop_view(t).around, loop_view(t).steps, seq![control, array]),
        r matches Ok(w) ==> w == loop_view(t).output && loop_view(t).body
            == loop_view(t).steps.push(
            Step { op: Op::Output, inputs: seq![control, array], outputs: seq![] },
        ),
{
    Ok(t.finish_with_outputs(control, [array])?.out_wire(0))
}

/// A region that holds nothing but its inputs.
pub proof fn lemma_begins(around: Seq<Step>, steps: Seq<Step>, sig: Sig, inputs: Seq<Wire>)
    requires
        begins(around, steps, sig, inputs),
    ensures
        sound(around, steps),
        steps == seq![Step { op: Op::Input(sig), inputs: seq![], outputs: inputs }],
        forall|w: Wire| #[trigger] known(steps, w) <==> inputs.contains(w),
        forall|w: Wire| #[trigger] unread(steps, w),
        forall|i: int|
            0 <= i < inputs.len() ==> known(steps, #[trigger] inputs[i]) && !known(
                around,
                inputs[i],
            ) && wire_type(steps, inputs[i]) == sig.inputs[i],
        forall|w: Wire| #[trigger]
            pending(steps, w) ==> inputs.contains(w) && !copyable(sig.inputs[inputs.index_of(w)]),
{
    let s = Step { op: Op::Input(sig), inputs: Seq::<Wire>::empty(), outputs: inputs };
    assert(steps =~= seq![s]);
    assert(steps.drop_last() =~= Seq::<Step>::empty());
    assert(steps[0] == s);
    assert(fits(around, Seq::empty(), s));
    assert(sound(around, Seq::<Step>::empty()));
    assert(steps.last() == s);
    assert forall|i: int| 0 <= i < inputs.len() implies known(steps, #[trigger] inputs[i]) && !known(
        around,
        inputs[i],
    ) && wire_type(steps, inputs[i]) == sig.inputs[i] by {
        assert(inputs.contains(inputs[i]));
        assert(inputs.index_of(inputs[i]) == i);
        assert(steps[0].outputs.contains(inputs[i]));
    }
    assert forall|w: Wire| #[trigger] known(steps, w) <==> inputs.contains(w) by {
        if inputs.contains(w) {
            assert(steps[0].outputs.contains(w));
        }
    }
}

} // verus!
