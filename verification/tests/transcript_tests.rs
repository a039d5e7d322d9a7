use sumcheck::field::Fe;
use sumcheck::transcript::{KeccakHasher, Transcript};

fn fresh() -> Transcript<KeccakHasher> {
    Transcript::new(KeccakHasher::new())
}

#[test]
fn test_hash() {
    let mut transcript = fresh();
    transcript.absorb(Fe::from_u64(11).to_bytes().as_slice());
    transcript.absorb("zero knowledge".as_bytes());
    let challenge1 = transcript.squeeze();
    let challenge2 = transcript.squeeze();
    assert_ne!(challenge1, challenge2);
}

#[test]
fn transcript_test_hash() {
    let mut transcript = fresh();
    transcript.absorb(Fe::from_u64(7).to_bytes().as_slice());
    transcript.absorb("girl".as_bytes());
    let challenge = transcript.squeeze();
    let challenge1 = transcript.squeeze();
    assert_ne!(challenge, challenge1);
}

#[test]
fn test_absorb_and_squeeze() {
    let mut transcript = fresh();
    let element = 42u8;
    transcript.absorb(&[element]);
    let random_element = transcript.squeeze();
    // The challenge is a hash of the state, not a pass-through.
    assert_ne!(random_element, Fe::from_u64(element as u64));
}

#[test]
fn test_transcript_determinism() {
    let mut first_transcript = fresh();
    let mut second_transcript = fresh();

    first_transcript.absorb(b"hello");
    first_transcript.absorb(b"world");
    first_transcript.squeeze();
    first_transcript.absorb(b"psychemist");

    second_transcript.absorb(b"hello");
    second_transcript.absorb(b"world");
    second_transcript.squeeze();
    second_transcript.absorb(b"psychemist");

    assert_eq!(first_transcript.squeeze(), second_transcript.squeeze());
}

#[test]
fn test_sample_challenge_should_absorb_after_sampling() {
    let mut transcript = fresh();
    let element = 69u8;
    transcript.absorb(&[element]);
    let random_element = transcript.squeeze();
    let random_element_a = transcript.squeeze();
    let random_element_b = transcript.squeeze();
    let _random_element_c = transcript.squeeze();
    let _random_element_d = transcript.squeeze();
    let random_element_e = transcript.squeeze();

    // Each squeeze re-absorbs its digest, so consecutive challenges differ.
    assert_ne!(random_element, random_element_a);
    assert_ne!(random_element_b, random_element_e);
}

#[test]
fn test_transcript_should_iterate_over_sample_challenge() {
    let mut transcript = fresh();
    let element = 127u8;
    transcript.absorb(&[element]);
    let random_element = transcript.squeeze();
    let random_element_x = transcript.squeeze_iterator(5);
    assert_ne!(vec![random_element], random_element_x);
}

#[test]
fn test_squeeze_iterator_matches_single_squeezes() {
    let mut a = fresh();
    let mut b = fresh();
    a.absorb(b"seed");
    b.absorb(b"seed");
    let many = a.squeeze_iterator(3);
    let singles = vec![b.squeeze(), b.squeeze(), b.squeeze()];
    assert_eq!(many, singles);
}

#[test]
fn test_absorption_order_matters() {
    let mut a = fresh();
    let mut b = fresh();
    a.absorb(b"one");
    a.absorb(b"two");
    b.absorb(b"two");
    b.absorb(b"one");
    assert_ne!(a.squeeze(), b.squeeze());
}
