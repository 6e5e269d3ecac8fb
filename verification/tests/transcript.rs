use sumcheck::field::Fp;
use sumcheck::transcript::Transcript;

#[test]
fn sampling_reduces_the_digest_of_the_history() {
    // SHA-256 of the empty history, first 16 bytes big-endian, mod the prime.
    let mut t = Transcript::new();
    assert_eq!(t.sample_field_element(), Fp::from_u64(1645639093));
}

#[test]
fn equal_histories_sample_equal_elements() {
    let mut a = Transcript::new();
    let mut b = Transcript::new();
    a.append(&vec![1, 2, 3]);
    b.append(&vec![1, 2, 3]);
    assert_eq!(a.sample_field_element(), b.sample_field_element());
    // The digest is absorbed, so the next samples still agree.
    assert_eq!(a.sample_field_element(), b.sample_field_element());
}

#[test]
fn different_histories_sample_different_elements() {
    let mut a = Transcript::new();
    let mut b = Transcript::new();
    a.append(&vec![1, 2, 3]);
    b.append(&vec![1, 2, 4]);
    assert_ne!(a.sample_field_element(), b.sample_field_element());
}

#[test]
fn successive_samples_differ() {
    let mut t = Transcript::new();
    t.append(&vec![42]);
    let first = t.sample_field_element();
    let second = t.sample_field_element();
    assert_ne!(first, second);
}
