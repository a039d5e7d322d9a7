use sumcheck::shamir::{evaluate_polynomial, interpolate_at_zero, validate_inputs, ShamirError};
use sumcheck::univariate::{degree_dense, degree_sparse, evaluate_dense, evaluate_sparse};

#[test]
fn test_evaluate_sparse_at_two() {
    // 2x^3 + 4x^2 + 5 at x = 2.
    let sparse: Vec<(u32, u32)> = vec![(2, 3), (4, 2), (5, 0)];
    assert_eq!(evaluate_sparse(&sparse, 2), 37);
}

#[test]
fn test_evaluate_dense_at_two() {
    // 5 + 4x^2 + 2x^3 at x = 2.
    let dense: Vec<u32> = vec![5, 0, 4, 2];
    assert_eq!(evaluate_dense(&dense, 2), 37);
}

#[test]
fn test_degree_sparse_is_largest_exponent() {
    let sparse: Vec<(u32, u32)> = vec![(2, 3), (4, 2), (5, 0)];
    assert_eq!(degree_sparse(&sparse), 3);
    assert_eq!(degree_sparse(&Vec::new()), 0);
    assert_eq!(degree_sparse(&vec![(1, 0), (9, 7), (2, 4)]), 7);
}

#[test]
fn test_degree_dense_is_length_minus_one() {
    let dense: Vec<u32> = vec![5, 0, 4, 2];
    assert_eq!(degree_dense(&dense), 3);
    assert_eq!(degree_dense(&vec![1]), 0);
}

#[test]
fn test_validate_inputs() {
    assert!(validate_inputs(123, 2, 5).is_ok());
    assert_eq!(
        validate_inputs(123, 5, 5).unwrap_err(),
        ShamirError::InvalidThreshold
    );
    assert_eq!(
        validate_inputs(70000, 2, 5).unwrap_err(),
        ShamirError::InvalidSecret
    );
}

#[test]
fn test_evaluate_polynomial_horner() {
    // 5 + 1*x at x = 2.
    assert_eq!(evaluate_polynomial(&[5, 1], 2), 7);
    // Reduction modulo the prime 65537.
    assert_eq!(evaluate_polynomial(&[65536, 1], 2), 1);
    assert_eq!(evaluate_polynomial(&[], 10), 0);
}

#[test]
fn test_interpolate_at_zero_recovers_constant_term() {
    // Shares of f(x) = 3 + 2x at x = 1 and x = 2.
    let shares: Vec<(usize, usize)> = vec![(1, 5), (2, 7)];
    assert_eq!(interpolate_at_zero(&shares), 3);
}

#[test]
fn test_interpolate_at_zero_three_shares() {
    // Shares of f(x) = 7 + x + x^2 at x = 1, 2, 3.
    let shares: Vec<(usize, usize)> = vec![(1, 9), (2, 13), (3, 19)];
    assert_eq!(interpolate_at_zero(&shares), 7);
}
