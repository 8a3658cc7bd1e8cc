use goldilocks_fri::error::StarkError;
use goldilocks_fri::field::FieldElement;
use goldilocks_fri::prover::{generate_computational_trace, is_a_power_of_2};

#[test]
fn test_is_a_power_of_two() {
    assert_eq!(is_a_power_of_2(8), true);
    assert_eq!(is_a_power_of_2(7), false);
}

#[test]
fn test_multiset_computational_trace() {
    let a = [FieldElement::new(1), FieldElement::new(2), FieldElement::new(4), FieldElement::new(3)];
    let b = [FieldElement::new(4), FieldElement::new(2), FieldElement::new(3), FieldElement::new(1)];
    let steps = 4;
    let trace = generate_computational_trace(&a, &b, steps).unwrap();
    assert_eq!(*trace.last().unwrap(), FieldElement::new(1));
}

#[test]
fn powers_of_two_edges() {
    assert!(!is_a_power_of_2(0));
    assert!(is_a_power_of_2(1));
    assert!(is_a_power_of_2(1 << 63));
    assert!(!is_a_power_of_2(u64::MAX));
    assert!(!is_a_power_of_2(12));
}

#[test]
fn trace_steps_and_refusal() {
    let a = [FieldElement::new(6), FieldElement::new(10)];
    let b = [FieldElement::new(3), FieldElement::new(5)];
    let trace = generate_computational_trace(&a, &b, 2).unwrap();
    assert_eq!(trace, vec![FieldElement::new(1), FieldElement::new(2), FieldElement::new(4)]);
    let zero = [FieldElement::new(0), FieldElement::new(5)];
    assert_eq!(generate_computational_trace(&a, &zero, 2), Err(StarkError::NonInvertible));
    assert_eq!(generate_computational_trace(&a, &zero, 0).unwrap(), vec![FieldElement::new(1)]);
}
