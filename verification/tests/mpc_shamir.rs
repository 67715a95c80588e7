use zk_foundations::mpc_shamir::field;
use zk_foundations::mpc_shamir::shamir::{reconstruct, shares_from_coefficients, split, Share};

#[test]
fn basic_roundtrip() {
    let secret = 123_456_789i128;
    let shares = split(secret, 5, 3);
    assert_eq!(reconstruct(&shares[..3]), secret);
}

#[test]
fn any_k_shares_work() {
    let secret = 987_654_321i128;
    let shares = split(secret, 10, 4);
    // First 4
    assert_eq!(reconstruct(&shares[..4]), secret);
    // Last 4
    assert_eq!(reconstruct(&shares[6..]), secret);
    // Scattered
    let mixed: Vec<Share> = shares.iter().step_by(2).cloned().take(4).collect();
    assert_eq!(reconstruct(&mixed), secret);
}

#[test]
fn below_threshold_gives_wrong_answer() {
    // With only k−1 shares the "reconstruction" gives a random value, not the secret.
    let secret = 42i128;
    let shares = split(secret, 5, 3);
    let bad = reconstruct(&shares[..2]);
    assert_ne!(bad, secret, "Should not reconstruct with fewer than k shares");
}

#[test]
fn shares_of_known_polynomial() {
    // P(x) = 5 + 3x + 2x²
    let shares = shares_from_coefficients(&[5, 3, 2], 4);
    let ys: Vec<i128> = shares.iter().map(|s| s.y).collect();
    let xs: Vec<i128> = shares.iter().map(|s| s.x).collect();
    assert_eq!(xs, vec![1, 2, 3, 4]);
    assert_eq!(ys, vec![10, 19, 32, 49]);
    assert_eq!(reconstruct(&shares[1..4]), 5);
}

#[test]
fn split_shares_have_party_indices_and_field_values() {
    let shares = split(7, 6, 2);
    assert_eq!(shares.len(), 6);
    for (i, s) in shares.iter().enumerate() {
        assert_eq!(s.x, i as i128 + 1);
        assert!(0 <= s.y && s.y < field::PRIME);
    }
}

#[test]
fn reconstruct_of_nothing_is_zero() {
    assert_eq!(reconstruct(&[]), 0);
    assert_eq!(reconstruct(&[Share { x: 9, y: 17 }]), 17);
}

#[test]
fn negative_secret_reduces_into_field() {
    let shares = split(-1, 3, 2);
    assert_eq!(reconstruct(&shares), field::PRIME - 1);
}

#[test]
fn lagrange_weights_sum_to_one() {
    let ones = [
        Share { x: 1, y: 1 },
        Share { x: 4, y: 1 },
        Share { x: 9, y: 1 },
        Share { x: 10, y: 1 },
    ];
    assert_eq!(reconstruct(&ones), 1);
}
