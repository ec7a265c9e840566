//! The registered quantum operations: their names, their ports, and which output carries on which
//! input.
use crate::multiplicity::Multiplicity;
use crate::text::str_eq;
use crate::ty::ElementType;
use vstd::prelude::*;

verus! {

#[derive(Debug, Clone, Copy, PartialEq, Eq, Hash, Structural)]
pub enum RegisteredOperation {
    QAlloc,
    H,
    Cx,
    Measure,
    Discard,
}

impl RegisteredOperation {
    /// The name a program calls the operation by.
    pub open spec fn spelling(self) -> Seq<char> {
        match self {
            RegisteredOperation::QAlloc => "qalloc"@,
            RegisteredOperation::H => "h"@,
            RegisteredOperation::Cx => "cx"@,
            RegisteredOperation::Measure => "measure"@,
            RegisteredOperation::Discard => "discard"@,
        }
    }

    pub fn name(self) -> (r: &'static str)
        ensures
            r@ == self.spelling(),
    {
        match self {
            RegisteredOperation::QAlloc => "qalloc",
            RegisteredOperation::H => "h",
            RegisteredOperation::Cx => "cx",
            RegisteredOperation::Measure => "measure",
            RegisteredOperation::Discard => "discard",
        }
    }
}

#[derive(Debug, Clone, Copy, PartialEq, Eq, Structural)]
pub struct Port {
    pub element_type: ElementType,
    pub multiplicity: Multiplicity,
}

#[derive(Debug, Clone, Copy, PartialEq, Eq, Structural)]
pub struct Continuity {
    pub input: usize,
    pub output: usize,
}

#[derive(Debug, PartialEq, Eq)]
pub struct OperationSignature {
    pub operation: RegisteredOperation,
    pub inputs: Vec<Port>,
    pub outputs: Vec<Port>,
    pub continuity: Vec<Continuity>,
}

/// A qubit, which is always linear.
pub open spec fn qubit_port() -> Port {
    Port { element_type: ElementType::Qubit, multiplicity: Multiplicity::Linear }
}

/// A classical bit.
pub open spec fn bit_port() -> Port {
    Port { element_type: ElementType::Bool, multiplicity: Multiplicity::Unrestricted }
}

impl RegisteredOperation {
    pub open spec fn input_ports(self) -> Seq<Port> {
        match self {
            RegisteredOperation::QAlloc => seq![],
            RegisteredOperation::H => seq![qubit_port()],
            RegisteredOperation::Cx => seq![qubit_port(), qubit_port()],
            RegisteredOperation::Measure => seq![qubit_port()],
            RegisteredOperation::Discard => seq![qubit_port()],
        }
    }

    pub open spec fn output_ports(self) -> Seq<Port> {
        match self {
            RegisteredOperation::QAlloc => seq![qubit_port()],
            RegisteredOperation::H => seq![qubit_port()],
            RegisteredOperation::Cx => seq![qubit_port(), qubit_port()],
            RegisteredOperation::Measure => seq![bit_port()],
            RegisteredOperation::Discard => seq![],
        }
    }

    /// Gates carry each qubit on at its own position; the other operations carry nothing on.
    pub open spec fn carried_on(self) -> Seq<Continuity> {
        match self {
            RegisteredOperation::H => seq![Continuity { input: 0, output: 0 }],
            RegisteredOperation::Cx => seq![
                Continuity { input: 0, output: 0 },
                Continuity { input: 1, output: 1 },
            ],
            _ => seq![],
        }
    }
}

impl OperationSignature {
    pub open spec fn is_signature_of(self, op: RegisteredOperation) -> bool {
        &&& self.operation == op
        &&& self.inputs@ == op.input_ports()
        &&& self.outputs@ == op.output_ports()
        &&& self.continuity@ == op.carried_on()
    }
}

fn port(element_type: ElementType, multiplicity: Multiplicity) -> (r: Port)
    ensures
        r == (Port { element_type, multiplicity }),
{
    Port { element_type, multiplicity }
}

fn signature(operation: RegisteredOperation) -> (r: OperationSignature)
    ensures
        r.is_signature_of(operation),
{
    let mut inputs: Vec<Port> = Vec::new();
    let mut outputs: Vec<Port> = Vec::new();
    let mut continuity: Vec<Continuity> = Vec::new();
    match operation {
        RegisteredOperation::QAlloc => {
            outputs.push(port(ElementType::Qubit, Multiplicity::Linear));
        },
        RegisteredOperation::H => {
            inputs.push(port(ElementType::Qubit, Multiplicity::Linear));
            outputs.push(port(ElementType::Qubit, Multiplicity::Linear));
            continuity.push(Continuity { input: 0, output: 0 });
        },
        RegisteredOperation::Cx => {
            inputs.push(port(ElementType::Qubit, Multiplicity::Linear));
            inputs.push(port(ElementType::Qubit, Multiplicity::Linear));
            outputs.push(port(ElementType::Qubit, Multiplicity::Linear));
            outputs.push(port(ElementType::Qubit, Multiplicity::Linear));
            continuity.push(Continuity { input: 0, output: 0 });
            continuity.push(Continuity { input: 1, output: 1 });
        },
        RegisteredOperation::Measure => {
            inputs.push(port(ElementType::Qubit, Multiplicity::Linear));
            outputs.push(port(ElementType::Bool, Multiplicity::Unrestricted));
        },
        RegisteredOperation::Discard => {
            inputs.push(port(ElementType::Qubit, Multiplicity::Linear));
        },
    }
    proof {
        assert(inputs@ =~= operation.input_ports());
        assert(outputs@ =~= operation.output_ports());
        assert(continuity@ =~= operation.carried_on());
    }
    OperationSignature { operation, inputs, outputs, continuity }
}

/// The signature of the operation that is called `name`, if there is one.
pub fn registered_operation(name: &str) -> (r: Option<OperationSignature>)
    ensures
        match r {
            Some(s) => s.operation.spelling() == name@ && s.is_signature_of(s.operation),
            None => forall|op: RegisteredOperation| #[trigger] op.spelling() != name@,
        },
{
    if str_eq(name, "qalloc") {
        Some(signature(RegisteredOperation::QAlloc))
    } else if str_eq(name, "h") {
        Some(signature(RegisteredOperation::H))
    } else if str_eq(name, "cx") {
        Some(signature(RegisteredOperation::Cx))
    } else if str_eq(name, "measure") {
        Some(signature(RegisteredOperation::Measure))
    } else if str_eq(name, "discard") {
        Some(signature(RegisteredOperation::Discard))
    } else {
        None
    }
}

/// Two operations share a name only where they are the same operation, so looking up the name of an
/// operation finds that operation.
pub proof fn operation_names_are_distinct(a: RegisteredOperation, b: RegisteredOperation)
    requires
        a.spelling() == b.spelling(),
    ensures
        a == b,
{
    reveal_strlit("qalloc");
    reveal_strlit("h");
    reveal_strlit("cx");
    reveal_strlit("measure");
    reveal_strlit("discard");
    assert("qalloc"@.len() == 6);
    assert("h"@.len() == 1);
    assert("cx"@.len() == 2);
    assert("measure"@.len() == 7 && "measure"@[0] == 'm');
    assert("discard"@.len() == 7 && "discard"@[0] == 'd');
}

/// Every entry of an operation's continuity joins two existing ports of the same kind, and no port
/// is joined twice.
pub proof fn continuity_joins_matching_ports(op: RegisteredOperation, i: int)
    requires
        0 <= i < op.carried_on().len(),
    ensures
        op.carried_on()[i].input < op.input_ports().len(),
        op.carried_on()[i].output < op.output_ports().len(),
        op.input_ports()[op.carried_on()[i].input as int]
            == op.output_ports()[op.carried_on()[i].output as int],
        forall|j: int|
            0 <= j < op.carried_on().len() && j != i ==> {
                &&& (#[trigger] op.carried_on()[j]).input != op.carried_on()[i].input
                &&& op.carried_on()[j].output != op.carried_on()[i].output
            },
{
}

/// A gate carries every one of its qubits on, from each input to the output at the same place, and
/// to no other; the other operations carry nothing on.
pub proof fn gates_carry_every_qubit_on(op: RegisteredOperation, i: int)
    ensures
        ({
            let gate = op == RegisteredOperation::H || op == RegisteredOperation::Cx;
            &&& gate ==> op.input_ports() == op.output_ports() && op.carried_on().len()
                == op.input_ports().len()
            &&& gate && 0 <= i < op.input_ports().len() ==> op.carried_on()[i].input == i
                && op.carried_on()[i].output == i
            &&& !gate ==> op.carried_on().len() == 0
        }),
{
}

/// A port is linear exactly where it takes or gives a qubit.
pub proof fn qubit_ports_are_linear(op: RegisteredOperation, i: int)
    ensures
        0 <= i < op.input_ports().len() ==> (op.input_ports()[i].element_type == ElementType::Qubit
            <==> op.input_ports()[i].multiplicity == Multiplicity::Linear),
        0 <= i < op.output_ports().len() ==> (op.output_ports()[i].element_type
            == ElementType::Qubit <==> op.output_ports()[i].multiplicity == Multiplicity::Linear),
{
}

} // verus!
