use alpha::hugr_primitives::{
    build_borrow_h_primitive, build_counted_loop_primitive, build_index_lowering_primitive,
    build_quantum_lifecycle_primitive,
};
use hugr::HugrView;

#[test]
fn borrow_gate_return_validates() {
    let hugr = build_borrow_h_primitive(4, 1).unwrap();
    hugr.validate().unwrap();
}

#[test]
fn counted_tail_loop_validates() {
    let hugr = build_counted_loop_primitive(4).unwrap();
    hugr.validate().unwrap();
    assert!(hugr.nodes().any(|node| hugr.get_optype(node).is_tail_loop()));
    assert!(hugr.nodes().any(|node| hugr.get_optype(node).is_conditional()));
}

#[test]
fn scheduled_index_and_predicate_variants_validate() {
    let hugr = build_index_lowering_primitive().unwrap();
    hugr.validate().unwrap();
    assert!(
        hugr.nodes()
            .filter(|node| hugr.get_optype(*node).is_conditional())
            .count()
            >= 2
    );
}

#[test]
fn quantum_lifecycle_primitives_validate() {
    let hugr = build_quantum_lifecycle_primitive().unwrap();
    hugr.validate().unwrap();
}

#[test]
fn only_places_of_the_array_can_be_borrowed() {
    assert!(build_borrow_h_primitive(1, 0).is_ok());
    let text = |size: u64, index: u64| build_borrow_h_primitive(size, index).err().unwrap().to_text();
    assert_eq!(
        text(4, 4),
        "HUGR generation failed: borrow index 4 is outside array size 4"
    );
    assert!(text(0, 0).ends_with("borrow index 0 is outside array size 0"));
}

#[test]
fn loops_of_every_size_are_built() {
    for size in [0, 1, u64::MAX] {
        build_counted_loop_primitive(size).unwrap().validate().unwrap();
    }
}
