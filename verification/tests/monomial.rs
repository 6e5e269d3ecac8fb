use sumcheck::monomial::Monomial;

#[test]
fn evaluates_coefficient_times_power() {
    let poly = Monomial::new(3, 2);
    assert_eq!(poly.evaluate(5), 75);
    assert_eq!(poly.degree(), 2);
}

#[test]
fn degree_zero_is_constant() {
    let poly = Monomial::new(9, 0);
    assert_eq!(poly.evaluate(1000), 9);
    assert_eq!(poly.degree(), 0);
}
