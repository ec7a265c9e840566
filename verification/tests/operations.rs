use alpha::multiplicity::Multiplicity;
use alpha::operation::{registered_operation, Continuity, RegisteredOperation};
use alpha::ty::{DeclaredType, ElementType};

#[test]
fn registry_records_quantum_continuity() {
    let cx = registered_operation("cx").unwrap();
    assert_eq!(cx.operation, RegisteredOperation::Cx);
    assert_eq!(
        cx.continuity,
        vec![
            Continuity {
                input: 0,
                output: 0
            },
            Continuity {
                input: 1,
                output: 1
            },
        ]
    );
}

#[test]
fn every_operation_is_found_by_its_name() {
    for op in [
        RegisteredOperation::QAlloc,
        RegisteredOperation::H,
        RegisteredOperation::Cx,
        RegisteredOperation::Measure,
        RegisteredOperation::Discard,
    ] {
        assert_eq!(registered_operation(op.name()).unwrap().operation, op);
    }
    assert!(registered_operation("toffoli").is_none());
    assert!(registered_operation("").is_none());
}

#[test]
fn measuring_turns_a_linear_qubit_into_a_plain_bit() {
    let measure = registered_operation("measure").unwrap();
    assert_eq!(measure.inputs.len(), 1);
    assert_eq!(measure.inputs[0].element_type, ElementType::Qubit);
    assert_eq!(measure.inputs[0].multiplicity, Multiplicity::Linear);
    assert_eq!(measure.outputs[0].element_type, ElementType::Bool);
    assert_eq!(measure.outputs[0].multiplicity, Multiplicity::Unrestricted);
    assert!(measure.continuity.is_empty());
}

#[test]
fn declared_types_become_element_types() {
    assert_eq!(ElementType::from(DeclaredType::Qubit), ElementType::Qubit);
    assert_eq!(ElementType::from(DeclaredType::Real), ElementType::Real);
    assert_eq!(ElementType::default(), ElementType::Unspecified);
    assert_eq!(Multiplicity::default(), Multiplicity::Unrestricted);
}
