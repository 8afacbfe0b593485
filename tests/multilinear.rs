use zk_protocols::field::Fe;
use zk_protocols::multilinear::MultiLinearPoly;

fn fe(v: u64) -> Fe {
    Fe::from_u64(v)
}

fn fes(v: &[u64]) -> Vec<Fe> {
    v.iter().map(|x| fe(*x)).collect()
}

fn setup_mle_poly() -> MultiLinearPoly {
    MultiLinearPoly::new(fes(&[0, 0, 0, 0, 0, 4, 0, 4, 0, 0, 3, 3, 5, 9, 8, 12]))
}

#[test]
fn test_partial_evaluate() {
    let multi_linear_poly = MultiLinearPoly::new(fes(&[0, 3, 2, 5]));
    let result = multi_linear_poly.partial_evaluate(fe(1), 0);
    assert_eq!(result.computation, fes(&[2, 5]));
    let result_b = multi_linear_poly.partial_evaluate(fe(4), 1);
    assert_eq!(result_b.computation, fes(&[12, 14]));
}

#[test]
fn test_partial_evaluate_at_last_index() {
    let multi_linear_poly = MultiLinearPoly::new(fes(&[0, 0, 0, 3, 0, 0, 2, 5]));
    let result = multi_linear_poly.partial_evaluate(fe(3), 2);
    assert_eq!(result.computation, fes(&[0, 9, 0, 11]));
}

#[test]
fn multi_linear_test_evaluate() {
    let multi_linear_poly = MultiLinearPoly::new(fes(&[0, 3, 2, 5]));
    let result = multi_linear_poly.evaluate(fes(&[1, 1]));
    assert_eq!(result.computation, fes(&[5]));
}

#[test]
fn test_partial_evaluate_2() {
    let multi_linear_poly = setup_mle_poly();
    let result = multi_linear_poly.partial_evaluate(fe(4), 0);
    assert_eq!(result.computation, fes(&[0, 0, 12, 12, 20, 24, 32, 36]));
}

#[test]
fn test_partial_evaluate_2_at_2_points() {
    let multi_linear_poly = setup_mle_poly();
    let result = multi_linear_poly.partial_evaluate(fe(4), 0).partial_evaluate(fe(2), 0);
    assert_eq!(result.computation, fes(&[40, 48, 52, 60]));
}

#[test]
fn multi_linear_test_evaluate_2() {
    let multi_linear_poly = setup_mle_poly();
    let result = multi_linear_poly.evaluate(fes(&[4, 2, 6, 1]));
    assert_eq!(result.computation, fes(&[120]));
}

#[test]
fn test_to_bytes() {
    let bytes = MultiLinearPoly::to_bytes(&fes(&[5]));
    let mut expected = vec![0u8; 31];
    expected.push(5);
    assert_eq!(bytes, expected);
}

#[test]
fn test_mul_add_evaluate() {
    let poly = MultiLinearPoly::new(fes(&[0, 0, 0, 3]));
    let result = poly.partial_evaluate(fe(0), 0);
    assert_eq!(result.computation, fes(&[0, 0]));
}

#[test]
fn test_w_evaluate() {
    let poly = MultiLinearPoly::new(fes(&[3, 7, 11, 56]));
    let result = poly.evaluate(fes(&[1, 1]));
    assert_eq!(result.computation, fes(&[56]));
}

#[test]
fn test_w_evaluate2() {
    let poly = MultiLinearPoly::new(fes(&[0, 12]));
    let result = poly.evaluate(fes(&[2]));
    assert_eq!(result.computation, fes(&[24]));
}

#[test]
fn evaluate_matches_lagrange_sum() {
    let table = [3u64, 1, 4, 1, 5, 9, 2, 6];
    let poly = MultiLinearPoly::new(fes(&table));
    let rs = [7u64, 11, 13];
    let got = poly.evaluate(fes(&rs)).computation[0];
    let mut acc = Fe::zero();
    for (i, t) in table.iter().enumerate() {
        let mut basis = Fe::one();
        for (j, r) in rs.iter().enumerate() {
            let bit = (i >> (2 - j)) & 1;
            let factor = if bit == 1 { fe(*r) } else { Fe::one().sub(fe(*r)) };
            basis = basis.mul(factor);
        }
        acc = acc.add(fe(*t).mul(basis));
    }
    assert_eq!(got, acc);
}

#[test]
fn evaluate_without_variables_is_the_stored_value() {
    let poly = MultiLinearPoly::new(fes(&[42]));
    assert_eq!(poly.evaluate(vec![]).computation, fes(&[42]));
}

#[test]
fn variable_count_is_log_of_length() {
    assert_eq!(setup_mle_poly().variable_count(), 4);
    assert_eq!(MultiLinearPoly::new(fes(&[1])).variable_count(), 0);
}
