use zk_protocols::integer_poly::{dense_repr, sparse_repr};

#[test]
fn test_dense_evaluate() {
    let dense_array = vec![5, 0, 0, 2];
    let x = 2;
    let result = dense_repr(x, dense_array);
    assert_eq!(result, 21);
}

#[test]
fn test_sparse_evaluate() {
    let sparse_array = vec![(2, 3), (5, 0)];
    let x = 2;
    let result = sparse_repr(x, sparse_array);
    assert_eq!(result, 21);
}

#[test]
fn dense_of_empty_is_zero() {
    assert_eq!(dense_repr(7, vec![]), 0);
}

#[test]
fn sparse_at_zero_keeps_constant_terms() {
    assert_eq!(sparse_repr(0, vec![(4, 0), (9, 2)]), 4);
}
