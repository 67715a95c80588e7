use zk_foundations::shamir_secret_sharing::{reconstruct_secret, split_secret, Share, PRIME};

#[test]
fn test_basic_reconstruction() {
    let secret = 123456789;
    let n = 5;
    let k = 3;
    let shares = split_secret(secret, n, k);

    let reconstructed = reconstruct_secret(&shares[0..k]);
    assert_eq!(reconstructed, secret);
}

#[test]
fn test_different_subsets() {
    let secret = 987654321;
    let n = 10;
    let k = 4;
    let shares = split_secret(secret, n, k);

    assert_eq!(reconstruct_secret(&shares[0..4]), secret);

    assert_eq!(reconstruct_secret(&shares[6..10]), secret);

    let odd_shares = shares.iter().step_by(2).cloned().collect::<Vec<_>>();
    assert_eq!(reconstruct_secret(&odd_shares[0..4]), secret);
}

#[test]
fn test_insufficient_shares() {
    let secret = 42;
    let n = 5;
    let k = 3;
    let shares = split_secret(secret, n, k);

    let reconstructed = reconstruct_secret(&shares[0..k - 1]);
    assert_ne!(reconstructed, secret);
}

#[test]
fn zero_threshold_acts_as_one() {
    let shares = split_secret(77, 3, 0);
    assert_eq!(shares.len(), 3);
    for s in &shares {
        assert_eq!(s.y, 77);
    }
}

#[test]
fn reconstruct_from_explicit_points() {
    // P(x) = 4 + x over points x = 2, 5
    let shares = vec![Share { x: 2, y: 6 }, Share { x: 5, y: 9 }];
    assert_eq!(reconstruct_secret(&shares), 4);
    // P(x) = 1 − x: the value at 0 is 1, values below 0 wrap into the field
    let line = vec![Share { x: 3, y: PRIME - 2 }, Share { x: 4, y: PRIME - 3 }];
    assert_eq!(reconstruct_secret(&line), 1);
}

#[test]
fn share_equality() {
    assert_eq!(Share { x: 1, y: 2 }, Share { x: 1, y: 2 });
    assert_ne!(Share { x: 1, y: 2 }, Share { x: 2, y: 2 });
}
