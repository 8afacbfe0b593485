use zk_protocols::field::Fe;
use zk_protocols::fri::{fold_poly, pad_poly_to_power_of_two, split_poly, FRIProtocol};

fn fe(v: u64) -> Fe {
    Fe::from_u64(v)
}

fn fes(v: &[u64]) -> Vec<Fe> {
    v.iter().map(|x| fe(*x)).collect()
}

fn poly_1() -> Vec<Fe> {
    fes(&[1, 2, 3])
}

#[test]
fn fri_helper_functions_test_pad_to_power_of_two() {
    let fri_protocol = FRIProtocol::new(poly_1(), 2);
    assert_eq!(fri_protocol.pad_to_power_of_two().len(), 8);
}

#[test]
fn fri_helper_functions_test_domain_size() {
    let fri_protocol = FRIProtocol::new(poly_1(), 2);
    assert_eq!(fri_protocol.domain_size(), 8);
}

#[test]
fn fri_helper_functions_test_fold_poly() {
    let folded_poly = fold_poly(&poly_1(), fe(2));
    assert_eq!(folded_poly, fes(&[5]));
}

#[test]
fn test_pad_poly_to_power_of_two() {
    let padded_vec = pad_poly_to_power_of_two(&fes(&[5, 6]));
    assert_eq!(padded_vec, fes(&[5, 6, 0, 0]));
}

#[test]
fn split_poly_separates_even_and_odd() {
    let (even, odd) = split_poly(&fes(&[1, 2, 3, 4, 5]));
    assert_eq!(even, fes(&[1, 3, 5]));
    assert_eq!(odd, fes(&[2, 4]));
}

#[test]
fn fri_protocol_test_fri_protocol() {
    let fri = FRIProtocol::new(fes(&[1, 2, 3, 4]), 2);
    let proof = fri.generate_proof().unwrap();
    assert_eq!(proof.root_hashes.len(), 3);
}

#[test]
fn fri_protocol_test_fri_protocol_verify() {
    let fri = FRIProtocol::new(fes(&[1, 2, 3, 4]), 2);
    let proof = fri.generate_proof().unwrap();
    assert!(fri.verify(&proof));
}

#[test]
fn cubic_with_blow_up_two_uses_eight_points_and_three_rounds() {
    let fri = FRIProtocol::new(fes(&[1, 2, 3, 4]), 2);
    assert_eq!(fri.domain_size(), 8);
    let proof = fri.generate_proof().unwrap();
    assert_eq!(proof.root_hashes.len(), 3);
    assert_eq!(proof.claimed_sums.len(), 2);
    assert_eq!(proof.final_poly.len(), 1);
}

#[test]
fn tampered_final_value_fails_fri() {
    let fri = FRIProtocol::new(fes(&[1, 2, 3, 4]), 2);
    let mut proof = fri.generate_proof().unwrap();
    proof.final_poly[0] = proof.final_poly[0].add(fe(1));
    assert!(!fri.verify(&proof));
}

#[test]
fn tampered_merkle_path_fails_fri() {
    let fri = FRIProtocol::new(fes(&[1, 2, 3, 4]), 2);
    let mut proof = fri.generate_proof().unwrap();
    proof.proofs_at_index[0].siblings[0][0] ^= 1;
    assert!(!fri.verify(&proof));
}

#[test]
fn larger_blow_up_still_verifies() {
    let fri = FRIProtocol::new(fes(&[9, 8, 7]), 4);
    assert_eq!(fri.domain_size(), 16);
    let proof = fri.generate_proof().unwrap();
    assert!(fri.verify(&proof));
}

#[test]
fn test_pad_vector_to_power_of_two() {
    let fri_protocol = FRIProtocol::new(poly_1(), 2);
    let padded_vec = fri_protocol.pad_vector_to_power_of_two(fes(&[5, 6, 7]));
    assert_eq!(padded_vec, fes(&[5, 6, 7, 0, 0, 0, 0, 0]));
}

#[test]
fn domain_of_one_point_is_refused() {
    let fri = FRIProtocol::new(fes(&[4]), 1);
    assert_eq!(fri.domain_size(), 1);
    assert_eq!(
        fri.generate_proof().err(),
        Some(zk_protocols::sum_check::ProofError::InputShape)
    );
}

#[test]
fn proof_with_missing_round_is_rejected() {
    let fri = FRIProtocol::new(fes(&[1, 2, 3, 4]), 2);
    let mut proof = fri.generate_proof().unwrap();
    proof.root_hashes.pop();
    assert!(!fri.verify(&proof));
}

#[test]
fn fold_poly_of_a_constant_keeps_it() {
    assert_eq!(fold_poly(&fes(&[7]), fe(3)), fes(&[7]));
    assert_eq!(fold_poly(&fes(&[1, 2, 3, 4]), fe(10)), fes(&[21, 43]));
}

#[test]
fn optimized_fri_protocol_test_fri_protocol() {
    let fri = FRIProtocol::new(fes(&[1, 2, 3, 4]), 2);
    assert!(fri.generate_proof().is_ok());
}

#[test]
fn optimized_fri_protocol_test_fri_protocol_verify() {
    let fri = FRIProtocol::new(fes(&[1, 2, 3, 4]), 2);
    let proof = fri.generate_proof().unwrap();
    assert!(fri.verify(&proof));
}
