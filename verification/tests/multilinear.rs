use sumcheck::field::Fp;
use sumcheck::multilinear::{insert_bit, pairs, MultilinearPoly, PolyError};

fn to_field(input: Vec<u64>) -> Vec<Fp> {
    input.into_iter().map(Fp::from_u64).collect()
}

#[test]
fn bit_insertion() {
    assert_eq!(insert_bit(3, 0), 0b110);
    assert_eq!(insert_bit(3, 1), 0b101);
    assert_eq!(insert_bit(3, 2), 0b011);
}

#[test]
fn test_pairs() {
    // 0 - 4
    // 1 - 5
    let pairs = pairs(2, 3);
    let _ = pairs;
}

#[test]
fn test_partial_evaluate() {
    // 2ab + 3bc
    let poly = MultilinearPoly::new(3, to_field(vec![0_u64, 0, 0, 3, 0, 0, 2, 5])).unwrap();
    assert_eq!(
        poly.partial_evaluate(2, Fp::from_u64(3)).evals,
        to_field(vec![0, 9, 0, 11])
    );
    assert_eq!(
        poly.partial_evaluate(1, Fp::from_u64(3)).evals,
        to_field(vec![0, 9, 6, 15])
    );
}

#[test]
fn pairs_list_all_index_pairs() {
    let pairs = pairs(0, 3);
    assert_eq!(pairs, vec![(0, 4), (1, 5), (2, 6), (3, 7)]);
}

#[test]
fn partial_evaluate_halves_the_table() {
    let poly = MultilinearPoly::new(3, to_field(vec![0, 0, 0, 3, 0, 0, 2, 5])).unwrap();
    for index in 0..3 {
        let folded = poly.partial_evaluate(index, Fp::from_u64(7));
        assert_eq!(folded.evals.len(), 4);
        assert_eq!(folded.n_vars, 2);
    }
}

#[test]
fn partial_evaluate_leading_variable_selects_halves() {
    let table: Vec<u64> = vec![0, 0, 0, 3, 0, 0, 2, 5];
    let poly = MultilinearPoly::new(3, to_field(table.clone())).unwrap();
    let low = poly.partial_evaluate(0, Fp::from_u64(0));
    let high = poly.partial_evaluate(0, Fp::from_u64(1));
    assert_eq!(low.evals, to_field(table[..4].to_vec()));
    assert_eq!(high.evals, to_field(table[4..].to_vec()));
}

#[test]
fn evaluate_on_boolean_points_reads_the_table() {
    let table: Vec<u64> = vec![0, 0, 0, 3, 0, 0, 2, 5];
    let poly = MultilinearPoly::new(3, to_field(table.clone())).unwrap();
    for idx in 0..8u64 {
        let bits = vec![(idx >> 2) & 1, (idx >> 1) & 1, idx & 1];
        let value = poly.evaluate(&to_field(bits)).unwrap();
        assert_eq!(value, Fp::from_u64(table[idx as usize]));
    }
}

#[test]
fn evaluate_at_field_point_interpolates() {
    // 2ab + 3bc at (a, b, c) = (2, 3, 4) is 2*2*3 + 3*3*4 = 48.
    let poly = MultilinearPoly::new(3, to_field(vec![0, 0, 0, 3, 0, 0, 2, 5])).unwrap();
    let value = poly.evaluate(&to_field(vec![2, 3, 4])).unwrap();
    assert_eq!(value, Fp::from_u64(48));
}

#[test]
fn new_rejects_wrong_table_length() {
    assert_eq!(
        MultilinearPoly::new(3, to_field(vec![1, 2, 3])).unwrap_err(),
        PolyError::InvalidLength
    );
    assert_eq!(
        MultilinearPoly::new(64, to_field(vec![0])).unwrap_err(),
        PolyError::InvalidLength
    );
    assert!(MultilinearPoly::new(0, to_field(vec![9])).is_ok());
}

#[test]
fn evaluate_rejects_wrong_arity() {
    let poly = MultilinearPoly::new(2, to_field(vec![1, 2, 3, 4])).unwrap();
    assert_eq!(
        poly.evaluate(&to_field(vec![1])).unwrap_err(),
        PolyError::ArityMismatch
    );
}
