use sumcheck::field::Fe;
use sumcheck::multilinear::{MultilinearPoly, PolyError};

fn fe(v: u64) -> Fe {
    Fe::from_u64(v)
}

fn fes(vs: &[u64]) -> Vec<Fe> {
    vs.iter().map(|&v| fe(v)).collect()
}

fn poly_1() -> MultilinearPoly {
    MultilinearPoly::new(2, fes(&[0, 2, 3, 5])).unwrap()
}

#[test]
fn test_representation() {
    assert_eq!(poly_1().evaluations, fes(&[0, 2, 3, 5]));
}

#[test]
#[should_panic]
fn test_panic_invalid_representation() {
    MultilinearPoly::new(2, fes(&[0, 1, 2])).unwrap();
}

#[test]
fn lib_test_representation() {
    assert_eq!(poly_1().evaluations, fes(&[0, 2, 3, 5]));
}

#[test]
fn main_test_representation() {
    let _poly = MultilinearPoly::new(2, fes(&[1, 2, 3, 4])).unwrap();
}

#[test]
#[should_panic]
fn test_invalid_new() {
    MultilinearPoly::new(2, fes(&[1, 2])).unwrap();
}

#[test]
fn test_full_evaluation_2var() {
    let poly = MultilinearPoly::new(2, fes(&[1, 2, 3, 4])).unwrap();
    assert_eq!(poly.evaluate(&fes(&[0, 0])).unwrap(), fe(1));
    assert_eq!(poly.evaluate(&fes(&[1, 0])).unwrap(), fe(2));
    assert_eq!(poly.evaluate(&fes(&[0, 1])).unwrap(), fe(3));
    assert_eq!(poly.evaluate(&fes(&[1, 1])).unwrap(), fe(4));
}

#[test]
fn test_partial_evaluation_2var_fix_second() {
    let poly = MultilinearPoly::new(2, fes(&[1, 2, 3, 4])).unwrap();
    let partial = poly.partial_evaluate((1, fe(0))).unwrap();
    assert_eq!(partial.evaluations.len(), 2);
    assert_eq!(partial.evaluations[0], fe(1));
    assert_eq!(partial.evaluations[1], fe(2));
}

#[test]
fn test_partial_evaluation_2var_fix_first() {
    let poly = MultilinearPoly::new(2, fes(&[1, 2, 3, 4])).unwrap();
    let half = fe(2).inverse().unwrap();
    let partial = poly.partial_evaluate((0, half)).unwrap();
    // Block [1, 2] combines to 3/2, block [3, 4] to 7/2.
    let exp0 = fe(3).mul(&half);
    let exp1 = fe(7).mul(&half);
    assert_eq!(partial.evaluations.len(), 2);
    assert_eq!(partial.evaluations[0], exp0);
    assert_eq!(partial.evaluations[1], exp1);
}

#[test]
fn test_partial_evaluation_full_3var() {
    let poly = MultilinearPoly::new(3, fes(&[1, 2, 3, 4, 5, 6, 7, 8])).unwrap();
    let step = poly
        .partial_evaluate((2, fe(1)))
        .unwrap()
        .partial_evaluate((1, fe(0)))
        .unwrap()
        .partial_evaluate((0, fe(1)))
        .unwrap();
    assert_eq!(step.evaluations.len(), 1);
    let full_eval = poly.evaluate(&fes(&[1, 0, 1])).unwrap();
    assert_eq!(full_eval, step.evaluations[0]);
    // (1, 0, 1) is index 1 + 0*2 + 1*4 = 5, whose table entry is 6.
    assert_eq!(full_eval, fe(6));
}

#[test]
fn multilinear_polynomial_test_representation() {
    assert_eq!(poly_1().evaluations, fes(&[0, 2, 3, 5]));
}

#[test]
#[should_panic]
fn multilinear_polynomial_test_panic_invalid_representation() {
    MultilinearPoly::new(2, fes(&[0, 1, 2])).unwrap();
}

#[test]
fn multilinear_polynomial_test_partial_evaluate_a_2v() {
    let poly = MultilinearPoly {
        num_vars: 2,
        evaluations: fes(&[0, 2, 0, 5]),
    };
    let partial_evaluated_poly = poly.partial_evaluate((1, fe(5))).unwrap();
    assert_eq!(partial_evaluated_poly.evaluations, fes(&[0, 17]));
}

#[test]
fn multilinear_polynomial_test_partial_evaluate_b_2v() {
    let poly = MultilinearPoly {
        num_vars: 2,
        evaluations: fes(&[0, 2, 0, 5]),
    };
    let partial_evaluated_poly = poly.partial_evaluate((0, fe(3))).unwrap();
    assert_eq!(partial_evaluated_poly.evaluations, fes(&[6, 15]));
}

fn poly_2() -> MultilinearPoly {
    MultilinearPoly::new(3, fes(&[0, 0, 0, 3, 0, 0, 2, 5])).unwrap()
}

#[test]
fn multilinear_polynomial_test_partial_evaluate_a_3v() {
    let result = poly_2().partial_evaluate((2, fe(1))).unwrap();
    assert_eq!(result.evaluations, fes(&[0, 0, 2, 5]));
}

#[test]
fn multilinear_polynomial_test_partial_evaluate_b_3v() {
    let result = poly_2().partial_evaluate((1, fe(5))).unwrap();
    assert_eq!(result.evaluations, fes(&[0, 15, 10, 25]));
}

#[test]
fn multilinear_polynomial_test_partial_evaluate_c_3v() {
    let result = poly_2().partial_evaluate((0, fe(3))).unwrap();
    assert_eq!(result.evaluations, fes(&[0, 9, 0, 11]));
}

#[test]
fn multilinear_polynomial_test_evaluate_abc() {
    let result = poly_2().evaluate(&fes(&[3, 5, 1])).unwrap();
    assert_eq!(result, fe(55));
}

#[test]
fn test_test_representation() {
    assert_eq!(poly_1().evaluations, fes(&[0, 2, 3, 5]));
}

#[test]
#[should_panic]
fn test_invalid_representation() {
    MultilinearPoly::new(2, fes(&[0, 1, 2])).unwrap();
}

#[test]
fn test_test_partial_evaluate_a_2v() {
    let poly = MultilinearPoly {
        num_vars: 2,
        evaluations: fes(&[0, 2, 0, 5]),
    };
    let partial_evaluated_poly = poly.partial_evaluate((1, fe(5))).unwrap();
    assert_eq!(partial_evaluated_poly.evaluations, fes(&[0, 17]));
}

#[test]
fn test_test_partial_evaluate_b_2v() {
    let poly = MultilinearPoly {
        num_vars: 2,
        evaluations: fes(&[0, 2, 0, 5]),
    };
    let partial_evaluated_poly = poly.partial_evaluate((0, fe(3))).unwrap();
    assert_eq!(partial_evaluated_poly.evaluations, fes(&[6, 15]));
}

#[test]
fn test_test_partial_evaluate_a_3v() {
    let result = poly_2().partial_evaluate((2, fe(1))).unwrap();
    assert_eq!(result.evaluations, fes(&[0, 0, 2, 5]));
}

#[test]
fn test_test_partial_evaluate_b_3v() {
    let result = poly_2().partial_evaluate((1, fe(5))).unwrap();
    assert_eq!(result.evaluations, fes(&[0, 15, 10, 25]));
}

#[test]
fn test_test_partial_evaluate_c_3v() {
    let result = poly_2().partial_evaluate((0, fe(3))).unwrap();
    assert_eq!(result.evaluations, fes(&[0, 9, 0, 11]));
}

#[test]
fn test_test_evaluate_abc() {
    let result = poly_2().evaluate(&fes(&[3, 5, 1])).unwrap();
    assert_eq!(result, fe(55));
}

#[test]
fn test_hypercube_indexing_all_points() {
    // Every Boolean point returns its own table entry, bit 0 = variable 0.
    let poly = MultilinearPoly::new(3, fes(&[1, 2, 3, 4, 5, 6, 7, 8])).unwrap();
    for i in 0..8u64 {
        let point = fes(&[i & 1, (i >> 1) & 1, (i >> 2) & 1]);
        assert_eq!(poly.evaluate(&point).unwrap(), fe(i + 1));
    }
}

#[test]
fn test_new_rejects_wrong_length() {
    let r = MultilinearPoly::new(3, fes(&[1, 2, 3, 4]));
    assert_eq!(r.unwrap_err(), PolyError::InvalidTableLength);
}

#[test]
fn test_partial_evaluate_rejects_missing_variable() {
    let poly = MultilinearPoly::new(2, fes(&[1, 2, 3, 4])).unwrap();
    let r = poly.partial_evaluate((2, fe(1)));
    assert_eq!(r.unwrap_err(), PolyError::PositionOutOfRange);
}

#[test]
fn test_evaluate_rejects_wrong_dimension() {
    let poly = MultilinearPoly::new(2, fes(&[1, 2, 3, 4])).unwrap();
    let r = poly.evaluate(&fes(&[1, 0, 1]));
    assert_eq!(r.unwrap_err(), PolyError::AssignmentLengthMismatch);
}

#[test]
fn test_constant_polynomial() {
    // Zero variables: a single entry, evaluated at the empty point.
    let poly = MultilinearPoly::new(0, fes(&[9])).unwrap();
    assert_eq!(poly.evaluate(&Vec::new()).unwrap(), fe(9));
    let r = poly.partial_evaluate((0, fe(1)));
    assert_eq!(r.unwrap_err(), PolyError::PositionOutOfRange);
}
