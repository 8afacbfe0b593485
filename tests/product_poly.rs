use zk_protocols::field::Fe;
use zk_protocols::multilinear::MultiLinearPoly;
use zk_protocols::product_poly::ProductPoly;

fn fes(v: &[u64]) -> Vec<Fe> {
    v.iter().map(|x| Fe::from_u64(*x)).collect()
}

#[test]
fn product_poly_test_product_poly() {
    let poly_1 = MultiLinearPoly::new(fes(&[0, 0, 0, 2]));
    let poly_2 = MultiLinearPoly::new(fes(&[0, 0, 0, 3]));
    let product_poly = ProductPoly::new(vec![poly_1, poly_2]);
    assert_eq!(product_poly.univariate_to_evaluation(), fes(&[0, 6, 24]));
}

#[test]
fn product_poly_test_product_poly2() {
    let poly_1 = MultiLinearPoly::new(fes(&[0, 8]));
    let poly_2 = MultiLinearPoly::new(fes(&[0, 12]));
    let product_poly = ProductPoly::new(vec![poly_1, poly_2]);
    assert_eq!(product_poly.univariate_to_evaluation(), fes(&[0, 96, 384]));
}

#[test]
fn partial_evaluate_fixes_every_factor() {
    let p = ProductPoly::new(vec![
        MultiLinearPoly::new(fes(&[1, 2, 3, 4])),
        MultiLinearPoly::new(fes(&[5, 6, 7, 8])),
    ]);
    let q = p.partial_evaluate(Fe::from_u64(1), 0);
    assert_eq!(q.poly_array[0].computation, fes(&[3, 4]));
    assert_eq!(q.poly_array[1].computation, fes(&[7, 8]));
    assert_eq!(p.get_degree(), 2);
}
