use zk_foundations::mpc_shamir::field;

#[test]
fn add_sub_roundtrip() {
    let a = 123_456_789i128;
    let b = 987_654_321i128;
    assert_eq!(field::sub(field::add(a, b), b), a);
}

#[test]
fn mul_div_roundtrip() {
    let a = 42i128;
    let b = 7i128;
    assert_eq!(field::div(field::mul(a, b), b), a);
}

#[test]
fn inverse_identity() {
    let a = 99_999i128;
    assert_eq!(field::mul(a, field::mod_inverse(a)), 1);
}

#[test]
fn field_ops_reduce_into_range() {
    let p = field::PRIME;
    assert_eq!(field::add(p - 1, 1), 0);
    assert_eq!(field::add(p - 1, 5), 4);
    assert_eq!(field::sub(0, 1), p - 1);
    assert_eq!(field::sub(3, 10), p - 7);
    assert_eq!(field::mul(p - 1, p - 1), 1);
    assert_eq!(field::mul(-2, 3), p - 6);
}

#[test]
fn inverse_of_two_and_of_zero() {
    let p = field::PRIME;
    assert_eq!(field::mod_inverse(2), (p + 1) / 2);
    assert_eq!(field::mod_inverse(0), 0);
    assert_eq!(field::mod_inverse(p + 2), (p + 1) / 2);
    assert_eq!(field::mul(-5, field::mod_inverse(-5)), 1);
}

#[test]
fn division_exact_values() {
    assert_eq!(field::div(10, 5), 2);
    assert_eq!(field::div(1, 2), (field::PRIME + 1) / 2);
}

#[test]
fn every_nonzero_element_is_invertible() {
    let p = field::PRIME;
    for a in [1i128, 2, 3, 37, 1321, 65_537, p - 2, p - 1, 1 << 60] {
        assert_eq!(field::mul(a, field::mod_inverse(a)), 1);
    }
    assert_eq!(field::mod_inverse(p), 0);
    assert_eq!(field::mod_inverse(-p), 0);
}

#[test]
fn roundtrips_hold_for_large_and_negative_values() {
    let p = field::PRIME;
    for (a, b) in [(p - 1, p - 1), (-7, 3), (0, 5), (1 << 60, (1 << 60) + 1)] {
        assert_eq!(field::sub(field::add(a, b), b), a.rem_euclid(p));
        assert_eq!(field::div(field::mul(a, b), b), a.rem_euclid(p));
    }
}
