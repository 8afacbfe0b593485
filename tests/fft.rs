use zk_protocols::fft::FastFourierTransform;
use zk_protocols::field::Fe;

fn fes(v: &[u64]) -> Vec<Fe> {
    v.iter().map(|x| Fe::from_u64(*x)).collect()
}

#[test]
fn fft_test_fft() {
    let coefficients = fes(&[5, 0, 0, 2]);
    let fft = FastFourierTransform::new(coefficients.clone());
    let values = fft.evaluate();
    let interpolated = values.interpolate();
    assert_eq!(interpolated.coefficients, fes(&[20, 0, 0, 8]));
}

#[test]
fn scaled_inverse_recovers_the_coefficients() {
    let coefficients = fes(&[5, 0, 0, 2]);
    let values = FastFourierTransform::new(coefficients.clone()).evaluate();
    assert_eq!(values.interpolate_scaled().coefficients, coefficients);
}

#[test]
fn inverse_without_division_scales_by_length() {
    let coefficients = fes(&[5, 0, 0, 2]);
    let values = FastFourierTransform::new(coefficients).evaluate();
    let undivided = values.interpolation();
    assert_eq!(undivided.coefficients, fes(&[20, 0, 0, 8]));
}

#[test]
fn transform_evaluates_on_the_subgroup() {
    let coefficients = fes(&[1, 2, 3, 4, 5, 6, 7, 8]);
    let values = FastFourierTransform::new(coefficients.clone()).evaluate();
    let w = Fe::root_of_unity(8).unwrap();
    for i in 0..8u64 {
        let x = w.pow(i);
        let mut acc = Fe::zero();
        for c in coefficients.iter().rev() {
            acc = acc.mul(x).add(*c);
        }
        assert_eq!(values.coefficients[i as usize], acc);
    }
}

#[test]
fn transform_of_a_single_value_is_itself() {
    let values = FastFourierTransform::new(fes(&[9])).evaluate();
    assert_eq!(values.coefficients, fes(&[9]));
}
