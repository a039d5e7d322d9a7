use sumcheck::field::Fe;
use sumcheck::multilinear::MultilinearPoly;
use sumcheck::sumcheck::{partial_prove, partial_verify, prove, verify};
use sumcheck::transcript::{KeccakHasher, Transcript};

fn fe(v: u64) -> Fe {
    Fe::from_u64(v)
}

fn fes(vs: &[u64]) -> Vec<Fe> {
    vs.iter().map(|&v| fe(v)).collect()
}

fn sum_of(poly: &MultilinearPoly) -> Fe {
    let mut acc = Fe::zero();
    for e in &poly.evaluations {
        acc = acc.add(e);
    }
    acc
}

#[test]
fn test_sumcheck_valid() {
    let poly = MultilinearPoly::new(3, fes(&[0, 0, 0, 3, 0, 0, 2, 5])).unwrap();
    let claimed_sum = fe(10);
    assert_eq!(sum_of(&poly), claimed_sum);
    let proof = prove(&poly, claimed_sum);
    assert_eq!(proof.round_polys.len(), 3);
    assert!(verify(&proof, &poly));
}

#[test]
fn test_sumcheck_rejects_wrong_claim() {
    let poly = MultilinearPoly::new(3, fes(&[0, 0, 0, 3, 0, 0, 2, 5])).unwrap();
    let proof = prove(&poly, fe(11));
    assert!(!verify(&proof, &poly));
}

#[test]
fn test_sumcheck_invalid() {
    // Tampering with any single value of any round polynomial is caught.
    let poly = MultilinearPoly::new(3, fes(&[0, 0, 0, 3, 0, 0, 2, 5])).unwrap();
    let claimed_sum = fe(10);
    let proof = prove(&poly, claimed_sum);
    for round in 0..proof.round_polys.len() {
        for slot in 0..2 {
            let mut tampered = proof.clone();
            if slot == 0 {
                tampered.round_polys[round].g0 = fe(999);
            } else {
                tampered.round_polys[round].g1 = fe(999);
            }
            assert!(!verify(&tampered, &poly));
        }
    }
}

#[test]
fn test_sumcheck_rejects_wrong_round_count() {
    let poly = MultilinearPoly::new(3, fes(&[0, 0, 0, 3, 0, 0, 2, 5])).unwrap();
    let claimed_sum = fe(10);
    let mut proof = prove(&poly, claimed_sum);
    proof.round_polys.pop();
    assert!(!verify(&proof, &poly));
}

#[test]
fn test_sumcheck_completeness_random_polynomials() {
    // Honest proofs are accepted for every variable count up to six.
    for n in 0..=6u32 {
        let table: Vec<Fe> = (0..(1u64 << n)).map(|_| fe(rand::random::<u64>())).collect();
        let poly = MultilinearPoly::new(n as usize, table).unwrap();
        let claimed_sum = sum_of(&poly);
        let proof = prove(&poly, claimed_sum);
        assert_eq!(proof.round_polys.len(), n as usize);
        assert!(verify(&proof, &poly));
    }
}

#[test]
fn test_sumcheck_zero_variables() {
    let poly = MultilinearPoly::new(0, fes(&[9])).unwrap();
    let proof = prove(&poly, fe(9));
    assert!(verify(&proof, &poly));
    let bad = prove(&poly, fe(8));
    assert!(!verify(&bad, &poly));
}

#[test]
fn test_proof_carries_claimed_sum() {
    let poly = MultilinearPoly::new(2, fes(&[1, 2, 3, 4])).unwrap();
    let proof = prove(&poly, fe(10));
    assert_eq!(proof.claimed_sum, fe(10));
    assert!(verify(&proof, &poly));
}


#[test]
fn test_partial_sumcheck_valid() {
    let poly = MultilinearPoly::new(3, fes(&[0, 0, 0, 3, 0, 0, 2, 5])).unwrap();
    let claimed_sum = fe(10);
    let mut transcript = Transcript::new(KeccakHasher::new());
    let partial_proof = partial_prove(&poly, claimed_sum, &mut transcript);
    assert_eq!(partial_proof.round_polys.len(), 3);

    let mut verify_transcript = Transcript::new(KeccakHasher::new());
    let (challenges, final_sum) = partial_verify(&partial_proof, &poly, &mut verify_transcript);
    assert_eq!(poly.evaluate(&challenges).unwrap(), final_sum);
}

#[test]
fn test_partial_sumcheck_invalid() {
    let poly = MultilinearPoly::new(3, fes(&[0, 0, 0, 3, 0, 0, 2, 5])).unwrap();
    let claimed_sum = fe(10);
    let mut transcript = Transcript::new(KeccakHasher::new());
    let mut partial_proof = partial_prove(&poly, claimed_sum, &mut transcript);
    partial_proof.round_polys[1].g1 = fe(999);

    let mut verify_transcript = Transcript::new(KeccakHasher::new());
    let (challenges, final_sum) = partial_verify(&partial_proof, &poly, &mut verify_transcript);
    assert!(challenges.is_empty() || final_sum == Fe::zero());
}

#[test]
fn test_partial_sumcheck_round_count_mismatch() {
    let poly = MultilinearPoly::new(3, fes(&[0, 0, 0, 3, 0, 0, 2, 5])).unwrap();
    let mut transcript = Transcript::new(KeccakHasher::new());
    let mut partial_proof = partial_prove(&poly, fe(10), &mut transcript);
    partial_proof.round_polys.pop();

    let mut verify_transcript = Transcript::new(KeccakHasher::new());
    let (challenges, final_sum) = partial_verify(&partial_proof, &poly, &mut verify_transcript);
    assert!(challenges.is_empty());
    assert_eq!(final_sum, Fe::zero());
}
