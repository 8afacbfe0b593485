use zk_protocols::field::Fe;
use zk_protocols::univariate::UnivariatePoly;

fn fe(v: u64) -> Fe {
    Fe::from_u64(v)
}

fn fes(v: &[u64]) -> Vec<Fe> {
    v.iter().map(|x| fe(*x)).collect()
}

fn poly_1() -> UnivariatePoly {
    UnivariatePoly { coefficient: fes(&[1, 2, 3]) }
}

fn poly_2() -> UnivariatePoly {
    UnivariatePoly { coefficient: [fes(&[3, 4]), vec![fe(0); 9], fes(&[5])].concat() }
}

#[test]
fn lib_test_degree() {
    assert_eq!(poly_1().degree(), 2);
}

#[test]
fn lib_test_evaluation() {
    assert_eq!(poly_1().evaluate(fe(2)), fe(17));
}

#[test]
fn lib_test_addition() {
    assert_eq!(
        poly_1().add(&poly_2()).coefficient,
        [fes(&[4, 6, 3]), vec![fe(0); 8], fes(&[5])].concat()
    );
}

#[test]
fn lib_test_mul() {
    let poly_1 = UnivariatePoly { coefficient: fes(&[5, 0, 2]) };
    let poly_2 = UnivariatePoly { coefficient: fes(&[6, 2]) };
    assert_eq!(poly_1.mul(&poly_2).coefficient, fes(&[30, 10, 12, 4]));
}

#[test]
fn lib_test_interpolate() {
    let maybe_2x = UnivariatePoly::interpolate(&fes(&[2, 4]), &fes(&[4, 8])).unwrap();
    assert_eq!(maybe_2x.coefficient, fes(&[0, 2]));
    assert_eq!(maybe_2x.evaluate(fe(3)), fe(6));
}

fn fib() -> UnivariatePoly {
    UnivariatePoly::interpolate(&fes(&[0, 1, 2, 3, 4, 5, 6, 7]), &fes(&[0, 1, 1, 2, 3, 5, 8, 13])).unwrap()
}

#[test]
fn test_fibonacci() {
    let fib = fib();
    let check_1 = fib.evaluate(fe(4));
    let check_2 = fib.evaluate(fe(5));
    let check_3 = fib.evaluate(fe(6));
    assert_eq!(check_3, check_1.add(check_2));
}

#[test]
#[should_panic(expected = "assertion `left == right` failed\n  left: 189\n right: 55")]
fn test_unequal_output() {
    let fib = fib();
    let check_1 = fib.evaluate(fe(7));
    let check_2 = fib.evaluate(fe(8));
    let check_3 = fib.evaluate(fe(9));
    let check_sum = check_1.add(check_2);
    assert_eq!(check_3.low_u64(), check_sum.low_u64());
}

#[test]
fn test_gkr_interpolate() {
    let interpolate = UnivariatePoly::interpolate(&fes(&[0, 1, 2]), &fes(&[0, 12, 48])).unwrap();
    assert_eq!(interpolate.evaluate(fe(4)), fe(192));
}

#[test]
fn interpolation_recovers_a_polynomial_everywhere() {
    let p = UnivariatePoly { coefficient: fes(&[7, 0, 3, 1]) };
    let xs = fes(&[1, 2, 5, 9]);
    let ys: Vec<Fe> = xs.iter().map(|x| p.evaluate(*x)).collect();
    let q = UnivariatePoly::interpolate(&xs, &ys).unwrap();
    for x in [0u64, 3, 10, 1000] {
        assert_eq!(q.evaluate(fe(x)), p.evaluate(fe(x)));
    }
}

#[test]
fn basis_is_one_at_its_point_and_zero_elsewhere() {
    let set = fes(&[1, 2, 3]);
    let b = UnivariatePoly::basis(&fe(2), &set).unwrap();
    assert_eq!(b.evaluate(fe(2)), fe(1));
    assert_eq!(b.evaluate(fe(1)), fe(0));
    assert_eq!(b.evaluate(fe(3)), fe(0));
}

#[test]
fn scalar_mul_and_product() {
    let p = poly_1().scalar_mul(&fe(3));
    assert_eq!(p.coefficient, fes(&[3, 6, 9]));
    let prod = UnivariatePoly::product(&vec![
        UnivariatePoly { coefficient: fes(&[1, 1]) },
        UnivariatePoly { coefficient: fes(&[2, 1]) },
    ]);
    assert_eq!(prod.coefficient, fes(&[2, 3, 1]));
    let sum = UnivariatePoly::sum(&vec![poly_1(), poly_1()]);
    assert_eq!(sum.coefficient, fes(&[2, 4, 6]));
}
