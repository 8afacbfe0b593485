use zk_protocols::circuit::{Circuit, Gate, GateOp, Layer};
use zk_protocols::field::Fe;
use zk_protocols::kzg::initialize;

fn fe(v: u64) -> Fe {
    Fe::from_u64(v)
}

fn fes(v: &[u64]) -> Vec<Fe> {
    v.iter().map(|x| fe(*x)).collect()
}

fn gate(left: usize, right: usize, op: GateOp, output: usize) -> Gate {
    Gate { left, right, op, output }
}

fn setup_test_circuit8() -> Circuit {
    let mut circuit = Circuit::new(fes(&[1, 2, 3, 4, 5, 6, 7, 8]));
    circuit.add_layer(Layer {
        gates: vec![
            gate(0, 1, GateOp::Add, 0),
            gate(2, 3, GateOp::Mul, 1),
            gate(4, 5, GateOp::Mul, 2),
            gate(6, 7, GateOp::Mul, 3),
        ],
    });
    circuit.add_layer(Layer { gates: vec![gate(0, 1, GateOp::Add, 0), gate(2, 3, GateOp::Mul, 1)] });
    circuit.add_layer(Layer { gates: vec![gate(0, 1, GateOp::Add, 0)] });
    circuit
}

#[test]
fn test_two_evaluate_returned() {
    let circuit = setup_test_circuit8();
    assert_eq!(circuit.evaluate(), fes(&[1695]));
}

#[test]
fn evaluate_layers_gives_every_wire_vector() {
    let circuit = setup_test_circuit8();
    let layers = circuit.evaluate_layers();
    assert_eq!(layers[0], fes(&[1, 2, 3, 4, 5, 6, 7, 8]));
    assert_eq!(layers[1], fes(&[3, 12, 30, 56]));
    assert_eq!(layers[2], fes(&[15, 1680]));
    assert_eq!(layers[3], fes(&[1695]));
}

#[test]
fn gkr_protocol_test_gkr_protocol_proof() {
    let circuit = setup_test_circuit8();
    let proof = circuit.prove().unwrap();
    assert_eq!(proof.p_proofs.len(), 3);
    assert_eq!(proof.w_i_evals.len(), 3);
}

#[test]
fn gkr_protocol_test_gkr_protocol_verify() {
    let circuit = setup_test_circuit8();
    let proof = circuit.prove().unwrap();
    assert!(circuit.verify(&proof));
}

#[test]
fn single_output_is_padded_with_a_zero() {
    let circuit = setup_test_circuit8();
    let proof = circuit.prove().unwrap();
    assert_eq!(proof.output_layer, fes(&[1695, 0]));
}

#[test]
fn tampered_round_polynomial_fails_gkr() {
    let circuit = setup_test_circuit8();
    let mut proof = circuit.prove().unwrap();
    proof.p_proofs[1].round_polys[0][1] = proof.p_proofs[1].round_polys[0][1].add(fe(1));
    assert!(!circuit.verify(&proof));
}

#[test]
fn wrong_output_fails_gkr() {
    let circuit = setup_test_circuit8();
    let mut proof = circuit.prove().unwrap();
    proof.output_layer[0] = fe(1696);
    assert!(!circuit.verify(&proof));
}

#[test]
fn wrong_input_values_fail_gkr() {
    let circuit = setup_test_circuit8();
    let mut proof = circuit.prove().unwrap();
    let last = proof.w_i_evals.len() - 1;
    proof.w_i_evals[last].0 = proof.w_i_evals[last].0.add(fe(1));
    assert!(!circuit.verify(&proof));
}

#[test]
fn two_gate_circuit_proves_and_verifies() {
    let mut circuit = Circuit::new(fes(&[1, 2, 3, 4]));
    circuit.add_layer(Layer { gates: vec![gate(0, 1, GateOp::Add, 0), gate(2, 3, GateOp::Mul, 1)] });
    circuit.add_layer(Layer { gates: vec![gate(0, 1, GateOp::Add, 0)] });
    assert_eq!(circuit.evaluate(), fes(&[15]));
    let proof = circuit.prove().unwrap();
    assert!(circuit.verify(&proof));
}

#[test]
fn gkr_2_to_1_trick_setup_test_circuit() {
    let circuit = setup_test_circuit8();
    let challenges = fes(&[2, 3]);
    let (new_add, new_mul) = circuit.gkr_trick(&challenges, 2, fe(5), fe(7)).unwrap();
    assert_eq!(new_add.computation.len(), 16);
    assert_eq!(new_mul.computation.len(), 16);
}

#[test]
fn test_new_claimed_sum() {
    let circuit = setup_test_circuit8();
    let challenges = fes(&[2, 3]);
    let evaluated_circuit = circuit.evaluate_layers();
    let w_i_eval = evaluated_circuit[2].clone();
    let alpha = fe(5);
    let beta = fe(7);
    let claimed_sum = circuit.new_claimed_sum(w_i_eval, &challenges, alpha, beta);
    let wb = fe(15).add(fe(1680).sub(fe(15)).mul(fe(2)));
    let wc = fe(15).add(fe(1680).sub(fe(15)).mul(fe(3)));
    assert_eq!(claimed_sum, alpha.mul(wb).add(beta.mul(wc)));
}

#[test]
fn wiring_tables_mark_each_gate() {
    let circuit = setup_test_circuit8();
    let (add, mul) = circuit.layer_i_add_mul(2);
    assert_eq!(add.len(), 8);
    let one = Fe::one();
    assert_eq!(add[1], one);
    assert!(mul.iter().all(|x| x.is_zero()));
    let (add1, mul1) = circuit.layer_i_add_mul(1);
    assert_eq!(add1.len(), 32);
    assert_eq!(add1[1], one);
    assert_eq!(mul1[16 + 2 * 4 + 3], one);
}

#[test]
fn explode_lays_out_pairs() {
    let circuit = setup_test_circuit8();
    let (wb, wc) = circuit.explode_w_i(2);
    assert_eq!(wb, fes(&[15, 15, 1680, 1680]));
    assert_eq!(wc, fes(&[15, 1680, 15, 1680]));
}

#[test]
fn succinct_gkr_test_gkr_protocol_proof() {
    let circuit = setup_test_circuit8();
    let setup = initialize(&fes(&[5, 2, 3]));
    let proof = circuit.succinct_proof(&setup.g1_arr).unwrap();
    assert_eq!(proof.quotient_evals_rb.len(), 3);
}

#[test]
fn succinct_gkr_test_gkr_protocol_verify() {
    let circuit = setup_test_circuit8();
    let setup = initialize(&fes(&[5, 2, 3]));
    let proof = circuit.succinct_proof(&setup.g1_arr).unwrap();
    assert!(circuit.succinct_verify(&proof, &setup.g2_arr));
}

#[test]
fn succinct_gkr_rejects_a_wrong_input_claim() {
    let circuit = setup_test_circuit8();
    let setup = initialize(&fes(&[5, 2, 3]));
    let mut proof = circuit.succinct_proof(&setup.g1_arr).unwrap();
    let last = proof.w_i_evals.len() - 1;
    proof.w_i_evals[last].1 = proof.w_i_evals[last].1.add(fe(1));
    assert!(!circuit.succinct_verify(&proof, &setup.g2_arr));
}

#[test]
fn circuit_with_unreadable_wire_is_refused() {
    let mut circuit = Circuit::new(fes(&[1, 2]));
    circuit.add_layer(Layer { gates: vec![gate(0, 5, GateOp::Add, 0)] });
    assert!(!circuit.check_fits());
    assert_eq!(circuit.prove().unwrap_err(), zk_protocols::sum_check::ProofError::InputShape);
}

#[test]
fn gkr_trick_outside_the_circuit_is_none() {
    let circuit = setup_test_circuit8();
    assert!(circuit.gkr_trick(&fes(&[2, 3]), 0, fe(5), fe(7)).is_none());
    assert!(circuit.gkr_trick(&fes(&[2, 3]), 4, fe(5), fe(7)).is_none());
}

#[test]
fn empty_circuit_is_refused() {
    let circuit = Circuit::new(fes(&[1, 2]));
    assert!(circuit.prove().is_err());
}

#[test]
fn gkr_sum_check_setup_test_circuit() {
    let circuit = setup_test_circuit8();
    assert!(circuit.prove().is_ok());
}

#[test]
fn test_gkr_proof() {
    let circuit = setup_test_circuit8();
    let proof = circuit.prove().unwrap();
    assert!(circuit.verify(&proof));
}

#[test]
fn three_wide_output_is_padded_to_four() {
    let mut circuit = Circuit::new(fes(&[1, 2, 3, 4, 5, 6, 7, 8]));
    circuit.add_layer(Layer {
        gates: vec![gate(0, 1, GateOp::Add, 0), gate(2, 3, GateOp::Mul, 1), gate(4, 5, GateOp::Add, 2)],
    });
    assert_eq!(circuit.evaluate(), fes(&[3, 12, 11]));
    let proof = circuit.prove().unwrap();
    assert_eq!(proof.output_layer, fes(&[3, 12, 11, 0]));
    assert!(circuit.verify(&proof));
}
