use sumcheck::field::{Fp, ENCODED_LEN, FIELD_MODULUS};

#[test]
fn arithmetic_is_exact_modulo_the_prime() {
    let a = Fp::from_u64(FIELD_MODULUS - 1);
    let b = Fp::from_u64(2);
    assert_eq!(a.add(b), Fp::from_u64(1));
    assert_eq!(b.sub(a), Fp::from_u64(3));
    assert_eq!(a.mul(b), Fp::from_u64(FIELD_MODULUS - 2));
    assert_eq!(Fp::from_u64(6).mul(Fp::from_u64(7)), Fp::from_u64(42));
}

#[test]
fn residues_reduce_modulo_the_prime() {
    assert_eq!(Fp::from_u64(FIELD_MODULUS), Fp::zero());
    assert_eq!(Fp::from_u64(FIELD_MODULUS + 1), Fp::one());
    assert!(Fp::zero().equals(&Fp::from_u64(2 * FIELD_MODULUS)));
}

#[test]
fn encoding_is_four_big_endian_bytes() {
    assert_eq!(Fp::from_u64(0x01020304).to_bytes_be(), vec![1, 2, 3, 4]);
    assert_eq!(Fp::from_u64(0x01020304).to_bytes_be().len(), ENCODED_LEN);
    assert_eq!(Fp::zero().to_bytes_be(), vec![0, 0, 0, 0]);
    assert_eq!(
        Fp::from_u64(FIELD_MODULUS - 1).to_bytes_be(),
        vec![0x78, 0x00, 0x00, 0x00]
    );
}
