use goldilocks_fri::error::StarkError;
use goldilocks_fri::field::{nth_root_of_unity, FieldElement};
use goldilocks_fri::fri::{get_branch_value, prove_low_degree, verify_low_degree_proof};
use goldilocks_fri::merkle::merkelize;
use goldilocks_fri::poly::Poly;

fn repeated_values() -> Vec<FieldElement> {
    let mut values = Vec::new();
    for _ in 0..4 {
        for v in 1..=8u64 {
            values.push(FieldElement::new(v));
        }
    }
    values
}

fn commit(values: &[FieldElement]) -> Vec<Vec<u8>> {
    merkelize(&values.iter().map(|x| x.to_bytes()).collect::<Vec<_>>())
}

#[test]
fn test_proving() {
    let values = repeated_values();
    let root_of_unity = nth_root_of_unity(32);
    let merkle = commit(&values);
    let proof = prove_low_degree(values, root_of_unity, merkle[1].clone(), 32, 7).unwrap();
    assert!(verify_low_degree_proof(&merkle[1], &root_of_unity, &proof, 12, 7));
}

#[test]
fn proof_shape() {
    let values = repeated_values();
    let w = nth_root_of_unity(32);
    let merkle = commit(&values);
    let proof = prove_low_degree(values.clone(), w, merkle[1].clone(), 32, 7).unwrap();
    assert_eq!(proof.len(), 2);
    assert_eq!(proof[0].ys_branches.len(), 40);
    assert_eq!(proof[0].positions_branches.len(), 160);
    assert_eq!(proof[0].ys_branches[0].len(), 4);
    assert_eq!(proof[0].positions_branches[0].len(), 6);
    assert_eq!(proof[1].values.len(), 8);
    assert_eq!(proof[1].values[2], FieldElement::new(3).to_bytes());
    assert_eq!(get_branch_value(&proof[0].ys_branches[0]), proof[0].ys_branches[0][0]);
}

#[test]
fn terminal_proof_carries_values() {
    let values = vec![FieldElement::new(4), FieldElement::new(9)];
    let proof = prove_low_degree(values, FieldElement::new(1), vec![], 16, 0).unwrap();
    assert_eq!(proof.len(), 1);
    assert_eq!(proof[0].values, vec![FieldElement::new(4).to_bytes(), FieldElement::new(9).to_bytes()]);
}

#[test]
fn prover_refuses_bad_input() {
    let values = repeated_values();
    let merkle = commit(&values);
    assert_eq!(
        prove_low_degree(values.clone(), FieldElement::new(7), merkle[1].clone(), 32, 7).err(),
        Some(StarkError::InvalidInput)
    );
    assert_eq!(
        prove_low_degree(values.clone(), nth_root_of_unity(32), vec![1, 2, 3], 32, 7).err(),
        Some(StarkError::InvalidInput)
    );
    assert_eq!(
        prove_low_degree(values[..30].to_vec(), nth_root_of_unity(32), merkle[1].clone(), 32, 7).err(),
        Some(StarkError::InvalidInput)
    );
}

#[test]
fn low_degree_polynomial_passes() {
    let w = nth_root_of_unity(64);
    let mut coeffs = [FieldElement::new(0); 64];
    for i in 0..10 {
        coeffs[i] = FieldElement::new(3 * i as u64 + 1);
    }
    let values = Poly::fft(&coeffs, &w);
    let merkle = commit(&values);
    let proof = prove_low_degree(values, w, merkle[1].clone(), 64, 0).unwrap();
    assert!(verify_low_degree_proof(&merkle[1], &w, &proof, 16, 0));
}

#[test]
fn tampering_is_rejected() {
    let values = repeated_values();
    let w = nth_root_of_unity(32);
    let merkle = commit(&values);
    let proof = prove_low_degree(values.clone(), w, merkle[1].clone(), 32, 7).unwrap();
    let mut bad_root = merkle[1].clone();
    bad_root[3] ^= 1;
    assert!(!verify_low_degree_proof(&bad_root, &w, &proof, 12, 7));
    let mut proof2 = prove_low_degree(values.clone(), w, merkle[1].clone(), 32, 7).unwrap();
    proof2[0].ys_branches[5][1][0] ^= 1;
    assert!(!verify_low_degree_proof(&merkle[1], &w, &proof2, 12, 7));
    let mut proof3 = prove_low_degree(values.clone(), w, merkle[1].clone(), 32, 7).unwrap();
    proof3[1].values[0] = FieldElement::new(99).to_bytes();
    assert!(!verify_low_degree_proof(&merkle[1], &w, &proof3, 12, 7));
    let mut proof4 = prove_low_degree(values, w, merkle[1].clone(), 32, 7).unwrap();
    proof4[0].positions_branches.pop();
    assert!(!verify_low_degree_proof(&merkle[1], &w, &proof4, 12, 7));
    assert!(!verify_low_degree_proof(&merkle[1], &w, &vec![], 12, 7));
}

#[test]
fn high_degree_terminal_is_rejected() {
    let w = nth_root_of_unity(8);
    let values: Vec<FieldElement> = (0..8u64).map(|i| FieldElement::new(i * i * i * i * i + 2)).collect();
    let merkle = commit(&values);
    let proof = prove_low_degree(values, w, merkle[1].clone(), 8, 0).unwrap();
    assert!(verify_low_degree_proof(&merkle[1], &w, &proof, 8, 0));
    assert!(!verify_low_degree_proof(&merkle[1], &w, &proof, 3, 0));
    assert!(!verify_low_degree_proof(&merkle[1], &w, &proof, 17, 0));
}

#[test]
fn length_not_a_power_of_two_is_refused() {
    let w = nth_root_of_unity(12);
    let values: Vec<FieldElement> = (0..12u64).map(FieldElement::new).collect();
    let merkle = commit(&values);
    assert_eq!(prove_low_degree(values, w, merkle[1].clone(), 17, 0).err(), Some(StarkError::InvalidInput));
}

#[test]
fn short_leaf_is_rejected() {
    let values = repeated_values();
    let w = nth_root_of_unity(32);
    let merkle = commit(&values);
    let mut proof = prove_low_degree(values, w, merkle[1].clone(), 32, 7).unwrap();
    proof[0].ys_branches[0][0].truncate(7);
    assert!(!verify_low_degree_proof(&merkle[1], &w, &proof, 12, 7));
}

#[test]
fn terminal_component_has_no_root_or_branches() {
    let values = repeated_values();
    let w = nth_root_of_unity(32);
    let merkle = commit(&values);
    let proof = prove_low_degree(values, w, merkle[1].clone(), 32, 7).unwrap();
    assert!(proof[0].values.is_empty());
    assert!(proof[1].root.is_empty());
    assert!(proof[1].ys_branches.is_empty());
    assert!(proof[1].positions_branches.is_empty());
}

#[test]
fn proof_verifies_with_its_own_bound() {
    let values = repeated_values();
    let w = nth_root_of_unity(32);
    let merkle = commit(&values);
    let proof = prove_low_degree(values, w, merkle[1].clone(), 32, 7).unwrap();
    assert!(verify_low_degree_proof(&merkle[1], &w, &proof, 32, 7));
    assert!(!verify_low_degree_proof(&merkle[1], &w, &proof, 68, 7));
}

#[test]
fn low_degree_polynomial_passes_with_its_own_bound() {
    let w = nth_root_of_unity(64);
    let mut coeffs = [FieldElement::new(0); 64];
    for i in 0..10 {
        coeffs[i] = FieldElement::new(3 * i as u64 + 1);
    }
    let values = Poly::fft(&coeffs, &w);
    let merkle = commit(&values);
    let proof = prove_low_degree(values, w, merkle[1].clone(), 64, 0).unwrap();
    assert!(verify_low_degree_proof(&merkle[1], &w, &proof, 64, 0));
}
