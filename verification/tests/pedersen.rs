use zk_foundations::pedersen::{generator_g, generator_h, Commitment, FieldElement, Opening, Pedersen};

#[test]
fn commit_verify_open() {
    let m = FieldElement::new(42);
    let r = FieldElement::new(123_456);
    let (c, o) = Pedersen::commit(m, r);
    assert!(Pedersen::verify(&c, &o));
    assert_eq!(Pedersen::open(&c, &o), Some(m));
    let fake = Opening { message: FieldElement::new(43), blinding: r };
    assert!(!Pedersen::verify(&c, &fake));
    assert_eq!(Pedersen::open(&c, &fake), None);
}

#[test]
fn commitment_value_by_hand() {
    // 2^10 · 3^5 mod P = 1024 · 243
    let (c, _) = Pedersen::commit(FieldElement::new(10), FieldElement::new(5));
    assert_eq!(c.0.inner(), 248_832);
    assert_eq!(generator_g().inner(), 2);
    assert_eq!(generator_h().inner(), 3);
}

#[test]
fn homomorphic_addition() {
    let (c1, o1) = Pedersen::commit(FieldElement::new(30), FieldElement::new(999_999_999));
    let (c2, o2) = Pedersen::commit(FieldElement::new(12), FieldElement::new(777));
    let c_sum = Pedersen::add(c1, c2);
    let o_sum = Pedersen::add_openings(o1, o2);
    assert!(Pedersen::verify(&c_sum, &o_sum));
    assert_eq!(o_sum.message.inner(), 42);
    // blindings add modulo P − 1
    assert_eq!(o_sum.blinding.inner(), (999_999_999 + 777) % 1_000_000_006);
}

#[test]
fn homomorphic_subtraction() {
    let (c3, o3) = Pedersen::commit(FieldElement::new(100), FieldElement::new(5));
    let (c4, o4) = Pedersen::commit(FieldElement::new(40), FieldElement::new(9));
    let c_diff = Pedersen::sub(c3, c4);
    let o_diff = Pedersen::sub_openings(o3, o4);
    assert!(Pedersen::verify(&c_diff, &o_diff));
    assert_eq!(o_diff.message.inner(), 60);
    assert_eq!(o_diff.blinding.inner(), 1_000_000_006 - 4);
}

#[test]
fn homomorphic_scaling() {
    let (c5, o5) = Pedersen::commit(FieldElement::new(7), FieldElement::new(123));
    let k = FieldElement::new(5);
    let c5k = Pedersen::scale(c5, k);
    let o5k = Pedersen::scale_opening(o5, k);
    assert!(Pedersen::verify(&c5k, &o5k));
    assert_eq!(o5k.message.inner(), 35);
}

#[test]
fn confidential_transaction_balances() {
    let r_bob = FieldElement::new(500_000_000);
    let r_chg = FieldElement::new(700_000_000);
    let r_in = Pedersen::add_blindings(r_bob, r_chg);
    assert_eq!(r_in.inner(), 1_200_000_000 - 1_000_000_006);
    let (c_in, _) = Pedersen::commit(FieldElement::new(150), r_in);
    let (c_bob, _) = Pedersen::commit(FieldElement::new(100), r_bob);
    let (c_chg, _) = Pedersen::commit(FieldElement::new(50), r_chg);
    assert!(Pedersen::verify_sum(&[c_in], &[c_bob, c_chg]));
    let (c_bad, _) = Pedersen::commit(FieldElement::new(51), r_chg);
    assert!(!Pedersen::verify_sum(&[c_in], &[c_bob, c_bad]));
    assert!(Pedersen::verify_sum(&[], &[]));
}

#[test]
fn field_element_arithmetic() {
    let p = 1_000_000_007u64;
    let a = FieldElement::new(p - 1);
    let b = FieldElement::new(5);
    assert_eq!((a + b).inner(), 4);
    assert_eq!((b - a).inner(), 6);
    assert_eq!((a * a).inner(), 1);
    assert_eq!((-b).inner(), p - 5);
    assert_eq!((-FieldElement::zero()).inner(), 0);
    assert_eq!((FieldElement::one() / FieldElement::new(2)).inner(), (p + 1) / 2);
    assert_eq!(FieldElement::new(p + 3).inner(), 3);
    assert_eq!(FieldElement::new(3).pow(4).inner(), 81);
    assert_eq!(FieldElement::new(2).pow(p - 1).inner(), 1);
    let mut c = FieldElement::new(10);
    c += FieldElement::new(5);
    c *= FieldElement::new(3);
    assert_eq!(c.inner(), 45);
    assert_eq!(Commitment(FieldElement::new(9)), Commitment(FieldElement::new(p + 9)));
}

#[test]
fn scaling_reduces_exponents_modulo_group_order() {
    // C^k with m·k and r·k past P − 1: the exponents wrap modulo P − 1.
    let m = FieldElement::new(500_000_004);
    let r = FieldElement::new(3);
    let k = FieldElement::new(4);
    let (c, _) = Pedersen::commit(m, r);
    let scaled = Pedersen::scale(c, k);
    let go: u64 = 1_000_000_006;
    let (expected, _) = Pedersen::commit(
        FieldElement::new((500_000_004u64 * 4) % go),
        FieldElement::new((3u64 * 4) % go),
    );
    assert_eq!(scaled, expected);
    let (c1, _) = Pedersen::commit(FieldElement::new(1), FieldElement::new(1));
    assert_eq!(Pedersen::scale(c1, FieldElement::new(2)), Commitment(FieldElement::new(36)));
}

#[test]
fn balance_check_ignores_order() {
    let (a, _) = Pedersen::commit(FieldElement::new(10), FieldElement::new(7));
    let (b, _) = Pedersen::commit(FieldElement::new(20), FieldElement::new(8));
    let (c, _) = Pedersen::commit(FieldElement::new(30), FieldElement::new(9));
    let (total, _) = Pedersen::commit(FieldElement::new(60), FieldElement::new(24));
    assert!(Pedersen::verify_sum(&[total], &[a, b, c]));
    assert!(Pedersen::verify_sum(&[total], &[c, a, b]));
    assert!(Pedersen::verify_sum(&[b, c, a], &[c, b, a]));
    assert!(Pedersen::verify_sum(&[], &[]));
    assert!(!Pedersen::verify_sum(&[total], &[a, b]));
}
