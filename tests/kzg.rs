use ark_bn254::{Fr, G1Projective};
use ark_ec::{CurveGroup, PrimeGroup};
use ark_serialize::CanonicalSerialize;
use zk_protocols::circuit::{Circuit, Gate, GateOp, Layer};
use zk_protocols::field::Fe;
use zk_protocols::kzg::{
    blow_up, compute_commitment, compute_lagrange_basis, compute_poly_minus_v, compute_quotient,
    compute_remainder, element_wise_op, initialize, prove, verify, Operator, TrustedSetup,
};
use zk_protocols::multilinear::MultiLinearPoly;

fn fe(v: u64) -> Fe {
    Fe::from_u64(v)
}

fn neg(v: u64) -> Fe {
    Fe::zero().sub(fe(v))
}

fn fes(v: &[u64]) -> Vec<Fe> {
    v.iter().map(|x| fe(*x)).collect()
}

fn setup() -> TrustedSetup {
    initialize(&fes(&[5, 2, 3]))
}

fn poly_1() -> MultiLinearPoly {
    MultiLinearPoly::new(fes(&[0, 4, 0, 4, 0, 4, 3, 7]))
}

#[test]
fn kzg_helper_functions_test_compute_quotient() {
    let result = compute_quotient(&poly_1());
    assert_eq!(result.computation, fes(&[0, 0, 3, 3]));
}

#[test]
fn kzg_helper_functions_test_compute_commitment() {
    let trusted_setup = setup();
    let result = compute_commitment(&poly_1(), &trusted_setup.g1_arr).unwrap();
    let expected = (G1Projective::generator() * Fr::from(42u64)).into_affine();
    let mut bytes = Vec::new();
    expected.serialize_compressed(&mut bytes).unwrap();
    assert_eq!(result, bytes);
}

#[test]
fn test_test_compute_poly_minus_v() {
    let result = compute_poly_minus_v(&poly_1(), &fes(&[6, 4, 0]));
    let expected = vec![neg(72), neg(68), neg(72), neg(68), neg(72), neg(68), neg(69), neg(65)];
    assert_eq!(expected, result.computation);
}

#[test]
fn kzg_helper_functions_test_compute_remainder() {
    let new_poly = compute_poly_minus_v(&poly_1(), &fes(&[6, 4, 0]));
    let result = compute_remainder(&new_poly, fe(6));
    assert_eq!(vec![neg(72), neg(68), neg(54), neg(50)], result.computation);
}

#[test]
fn test_blow_up() {
    let poly = MultiLinearPoly::new(fes(&[3, 4]));
    let result = blow_up(&poly, 1);
    assert_eq!(fes(&[3, 4, 3, 4]), result.computation);
}

#[test]
fn kzg_protocol_test_proof() {
    let setup = setup();
    let proof = prove(&poly_1(), &setup.g1_arr, &fes(&[6, 4, 0])).unwrap();
    assert_eq!(proof.quotient_evals.len(), 3);
    assert_eq!(proof.poly_opened, fe(72));
}

#[test]
fn kzg_protocol_test_verify() {
    let setup = setup();
    let vars_to_open = fes(&[6, 4, 0]);
    let proof = prove(&poly_1(), &setup.g1_arr, &vars_to_open).unwrap();
    assert!(verify(&proof, &setup.g2_arr, &vars_to_open));
}

#[test]
fn wrong_opened_value_fails_kzg() {
    let setup = setup();
    let vars_to_open = fes(&[6, 4, 0]);
    let mut proof = prove(&poly_1(), &setup.g1_arr, &vars_to_open).unwrap();
    proof.poly_opened = proof.poly_opened.add(fe(1));
    assert!(!verify(&proof, &setup.g2_arr, &vars_to_open));
}

#[test]
fn altered_quotient_fails_kzg() {
    let setup = setup();
    let vars_to_open = fes(&[6, 4, 0]);
    let mut proof = prove(&poly_1(), &setup.g1_arr, &vars_to_open).unwrap();
    proof.quotient_evals[1] = proof.quotient_evals[0].clone();
    assert!(!verify(&proof, &setup.g2_arr, &vars_to_open));
}

#[test]
fn missing_quotient_fails_kzg() {
    let setup = setup();
    let vars_to_open = fes(&[6, 4, 0]);
    let mut proof = prove(&poly_1(), &setup.g1_arr, &vars_to_open).unwrap();
    proof.quotient_evals.pop();
    assert!(!verify(&proof, &setup.g2_arr, &vars_to_open));
}

#[test]
fn test_compute_lagrange_basis() {
    let result = compute_lagrange_basis(&fes(&[5, 2, 3]));
    let expected = vec![neg(8), fe(12), fe(16), neg(24), fe(10), neg(15), neg(20), fe(30)];
    assert_eq!(result, expected);
}

#[test]
fn test_initialize() {
    let result = initialize(&fes(&[5, 2, 3]));
    assert_eq!(result.max_input, 3);
    assert_eq!(result.g1_arr.len(), 8);
    assert_eq!(result.g2_arr.len(), 3);
}

#[test]
fn test_compute_binary_product() {
    let r = element_wise_op(&fes(&[1, 2]), &fes(&[3, 4]), Operator::Mul);
    assert_eq!(r, fes(&[3, 8]));
    let s = element_wise_op(&fes(&[5, 6]), &fes(&[1, 2]), Operator::Sub);
    assert_eq!(s, fes(&[4, 4]));
    let a = element_wise_op(&fes(&[5, 6]), &fes(&[1, 2]), Operator::Add);
    assert_eq!(a, fes(&[6, 8]));
}

#[test]
fn commitment_with_short_basis_is_refused() {
    let trusted_setup = setup();
    let short: Vec<Vec<u8>> = trusted_setup.g1_arr[..4].to_vec();
    assert!(compute_commitment(&poly_1(), &short).is_none());
}

#[test]
fn opening_with_a_broken_basis_is_none() {
    let mut trusted_setup = setup();
    trusted_setup.g1_arr[3] = vec![0xff; 32];
    assert!(prove(&poly_1(), &trusted_setup.g1_arr, &fes(&[6, 4, 0])).is_none());
}

#[test]
fn succinct_proof_with_a_short_basis_is_a_setup_error() {
    let mut circuit = Circuit::new(fes(&[1, 2, 3, 4]));
    circuit.add_layer(Layer {
        gates: vec![
            Gate { left: 0, right: 1, op: GateOp::Add, output: 0 },
            Gate { left: 2, right: 3, op: GateOp::Mul, output: 1 },
        ],
    });
    circuit.add_layer(Layer { gates: vec![Gate { left: 0, right: 1, op: GateOp::Add, output: 0 }] });
    let setup = setup();
    let err = circuit.succinct_proof(&setup.g1_arr).err();
    assert_eq!(err, Some(zk_protocols::sum_check::ProofError::SetupInvalid));
}
