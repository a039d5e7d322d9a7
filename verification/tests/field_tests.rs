use sumcheck::field::Fe;

fn fe(v: u64) -> Fe {
    Fe::from_u64(v)
}

#[test]
fn test_field_arithmetic() {
    assert_eq!(fe(3).add(&fe(4)), fe(7));
    assert_eq!(fe(7).sub(&fe(4)), fe(3));
    assert_eq!(fe(6).mul(&fe(7)), fe(42));
    assert_eq!(fe(0), Fe::zero());
    assert_eq!(fe(1), Fe::one());
}

#[test]
fn test_subtraction_wraps_modulo_prime() {
    // 0 - 1 is the largest residue, so adding 1 back gives 0.
    let minus_one = Fe::zero().sub(&Fe::one());
    assert_ne!(minus_one, Fe::zero());
    assert_eq!(minus_one.add(&Fe::one()), Fe::zero());
}

#[test]
fn test_inverse() {
    let two = fe(2);
    let half = two.inverse().unwrap();
    assert_eq!(half.mul(&two), Fe::one());
    assert!(Fe::zero().inverse().is_none());
}

#[test]
fn test_from_be_bytes() {
    assert_eq!(Fe::from_be_bytes(&[1, 0]), fe(256));
    assert_eq!(Fe::from_be_bytes(&[]), Fe::zero());
    assert_eq!(Fe::from_be_bytes(&[255, 255]), fe(65535));
}

#[test]
fn test_to_bytes_is_canonical() {
    let b = fe(258).to_bytes();
    assert_eq!(b.len(), 32);
    assert_eq!(b[30], 1);
    assert_eq!(b[31], 2);
    assert!(b[..30].iter().all(|&x| x == 0));
    assert_eq!(Fe::from_be_bytes(&b), fe(258));
}

#[test]
fn test_equals_matches_derived_equality() {
    assert!(fe(5).equals(&fe(5)));
    assert!(!fe(5).equals(&fe(6)));
}
