use zk_protocols::field::Fe;
use zk_protocols::multilinear::MultiLinearPoly;
use zk_protocols::product_poly::ProductPoly;
use zk_protocols::sum_check::{prove, prove_in, reduce, verify, verify_in, ProofError};
use zk_protocols::transcript::Transcript;

fn fe(v: u64) -> Fe {
    Fe::from_u64(v)
}

fn fes(v: &[u64]) -> Vec<Fe> {
    v.iter().map(|x| fe(*x)).collect()
}

fn table() -> Vec<Fe> {
    fes(&[0, 0, 0, 0, 0, 4, 0, 4, 0, 0, 3, 3, 5, 9, 8, 12])
}

fn sum(v: &[Fe]) -> Fe {
    v.iter().fold(Fe::zero(), |a, b| a.add(*b))
}

#[test]
fn partial_sum_check_test_proof() {
    let poly_1 = MultiLinearPoly::new(fes(&[1, 2, 3, 4, 5, 6, 7, 8]));
    let poly_2 = MultiLinearPoly::new(fes(&[1, 2, 3, 4, 5, 6, 7, 8]));
    let prod_poly = ProductPoly::new(vec![poly_1, poly_2]);
    let proof = prove(vec![prod_poly.clone(), prod_poly], fe(408));
    let verify = verify(&proof).unwrap();
    assert_eq!(verify.challenges.len(), 3);
}

#[test]
fn fiat_shamir_test_proof() {
    let poly = MultiLinearPoly::new(table());
    let init_claimed_sum = sum(&poly.computation);
    let proof = prove(vec![ProductPoly::new(vec![poly])], init_claimed_sum);
    assert_eq!(proof.init_claimed_sum, fe(48));
}

#[test]
fn fiat_shamir_test_verify() {
    let poly = MultiLinearPoly::new(table());
    let init_claimed_sum = sum(&poly.computation);
    let proof = prove(vec![ProductPoly::new(vec![poly.clone()])], init_claimed_sum);
    let result = verify(&proof).unwrap();
    assert_eq!(result.challenges.len(), 4);
    let at_point = poly.evaluate(result.challenges.clone()).computation[0];
    assert_eq!(result.last_claimed_sum, at_point);
}

#[test]
fn prover_test_prover() {
    let poly = MultiLinearPoly::new(table());
    let proof = prove(vec![ProductPoly::new(vec![poly])], fe(48));
    assert_eq!(proof.round_polys.len(), 4);
    assert!(verify(&proof).is_ok());
}

#[test]
fn product_sum_check_closes_at_the_challenges() {
    let a = MultiLinearPoly::new(fes(&[0, 0, 0, 2]));
    let b = MultiLinearPoly::new(fes(&[0, 0, 0, 3]));
    let proof = prove(vec![ProductPoly::new(vec![a.clone(), b.clone()])], fe(6));
    let sub = verify(&proof).unwrap();
    let ea = a.evaluate(sub.challenges.clone()).computation[0];
    let eb = b.evaluate(sub.challenges.clone()).computation[0];
    assert_eq!(sub.last_claimed_sum, ea.mul(eb));
}

#[test]
fn wrong_claimed_sum_is_rejected() {
    let poly = MultiLinearPoly::new(table());
    let proof = prove(vec![ProductPoly::new(vec![poly])], fe(49));
    assert_eq!(verify(&proof).unwrap_err(), ProofError::ProofInvalid);
}

#[test]
fn tampered_round_polynomial_is_rejected() {
    let poly = MultiLinearPoly::new(table());
    let mut proof = prove(vec![ProductPoly::new(vec![poly])], fe(48));
    proof.round_polys[1][0] = proof.round_polys[1][0].add(fe(1));
    assert_eq!(verify(&proof).unwrap_err(), ProofError::ProofInvalid);
}

#[test]
fn proof_without_products_is_an_input_shape_error() {
    let poly = MultiLinearPoly::new(table());
    let mut proof = prove(vec![ProductPoly::new(vec![poly])], fe(48));
    proof.sum_poly.clear();
    assert_eq!(verify(&proof).unwrap_err(), ProofError::InputShape);
}

#[test]
fn reduce_adds_rows() {
    let rows = vec![fes(&[1, 2]), fes(&[3, 4]), fes(&[5, 6])];
    assert_eq!(reduce(&rows), fes(&[9, 12]));
}

#[test]
fn verifier_test_verify_proof() {
    let poly = MultiLinearPoly::new(table());
    let proof = prove(vec![ProductPoly::new(vec![poly])], fe(48));
    assert!(verify(&proof).is_ok());
}

#[test]
fn running_transcript_gives_other_challenges() {
    let poly = MultiLinearPoly::new(table());
    let mut t = Transcript::new();
    t.absorb(b"context");
    let proof = prove_in(&mut t, vec![ProductPoly::new(vec![poly.clone()])], fe(48));
    let fresh = prove(vec![ProductPoly::new(vec![poly])], fe(48));
    assert_ne!(proof.challenges, fresh.challenges);
    let mut v = Transcript::new();
    v.absorb(b"context");
    assert!(verify_in(&mut v, &proof).is_ok());
    let mut w = Transcript::new();
    assert!(verify_in(&mut w, &proof).is_err());
}
