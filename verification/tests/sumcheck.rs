use sumcheck::field::Fp;
use sumcheck::multilinear::MultilinearPoly;
use sumcheck::sumcheck::{prove, verify, Proof};

fn to_field(input: Vec<u64>) -> Vec<Fp> {
    input.into_iter().map(Fp::from_u64).collect()
}

fn example_poly() -> MultilinearPoly {
    MultilinearPoly::new(3, to_field(vec![0, 0, 0, 3, 0, 0, 2, 5])).unwrap()
}

#[test]
fn test_sumcheck() {
    let poly = MultilinearPoly::new(3, to_field(vec![0, 0, 0, 3, 0, 0, 2, 5])).unwrap();
    let proof = prove(&poly, Fp::from_u64(20));
    let _ = proof;
}

#[test]
fn round_trip_accepts_true_sum() {
    // The table sums to 10 over the hypercube.
    let poly = example_poly();
    let proof = prove(&poly, Fp::from_u64(10));
    assert!(verify(&poly, &proof));
}

#[test]
fn rejects_false_claim() {
    let poly = example_poly();
    let proof = prove(&poly, Fp::from_u64(20));
    assert!(!verify(&poly, &proof));
}

#[test]
fn prove_is_deterministic() {
    let poly = example_poly();
    let first = prove(&poly, Fp::from_u64(10));
    let second = prove(&poly, Fp::from_u64(10));
    assert_eq!(first.claimed_sum, second.claimed_sum);
    assert_eq!(first.round_polys, second.round_polys);
}

#[test]
fn rejects_wrong_round_count() {
    let poly = example_poly();
    let mut proof = prove(&poly, Fp::from_u64(10));
    proof.round_polys.pop();
    assert!(!verify(&poly, &proof));
}

#[test]
fn rejects_any_single_tampered_element() {
    let poly = example_poly();
    let valid = prove(&poly, Fp::from_u64(10));
    assert!(verify(&poly, &valid));
    for round in 0..valid.round_polys.len() {
        for side in 0..2 {
            let mut tampered = Proof {
                claimed_sum: valid.claimed_sum,
                round_polys: valid.round_polys.clone(),
            };
            let m = &mut tampered.round_polys[round];
            if side == 0 {
                m.eval_at_0 = m.eval_at_0.add(Fp::one());
            } else {
                m.eval_at_1 = m.eval_at_1.add(Fp::one());
            }
            assert!(!verify(&poly, &tampered));
        }
    }
}

#[test]
fn zero_variable_polynomial_round_trips() {
    let poly = MultilinearPoly::new(0, to_field(vec![7])).unwrap();
    let good = prove(&poly, Fp::from_u64(7));
    assert!(verify(&poly, &good));
    let bad = prove(&poly, Fp::from_u64(8));
    assert!(!verify(&poly, &bad));
}
