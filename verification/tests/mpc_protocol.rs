use zk_foundations::mpc_shamir::party::Party;
use zk_foundations::mpc_shamir::field;
use zk_foundations::mpc_shamir::field::PRIME;
use zk_foundations::mpc_shamir::protocol;

fn make_parties(n: usize) -> Vec<Party> {
    (1..=n).map(|i| Party::new(i, &format!("P{i}"))).collect()
}

#[test]
fn secure_add_correctness() {
    let mut parties = make_parties(4);
    let t = 3;
    protocol::input_secret(&mut parties, "x", 100, t);
    protocol::input_secret(&mut parties, "y", 200, t);
    protocol::add(&mut parties, "sum", "x", "y");
    assert_eq!(protocol::open(&parties, "sum", t), 300);
}

#[test]
fn secure_scalar_mul_correctness() {
    let mut parties = make_parties(4);
    let t = 3;
    protocol::input_secret(&mut parties, "x", 7, t);
    protocol::scalar_mul(&mut parties, "result", "x", 6);
    assert_eq!(protocol::open(&parties, "result", t), 42);
}

#[test]
fn secure_mul_with_beaver_triple() {
    let mut parties = make_parties(5);
    let t = 3;
    protocol::input_secret(&mut parties, "x", 11, t);
    protocol::input_secret(&mut parties, "y", 13, t);

    let triple = protocol::generate_beaver_triple(&mut parties, "ba", "bb", "bc", t);
    protocol::mul(&mut parties, "product", "x", "y", &triple, t);

    assert_eq!(protocol::open(&parties, "product", t), 143); // 11 × 13 = 143
}

#[test]
fn add_three_secrets() {
    let mut parties = make_parties(3);
    let t = 2;
    protocol::input_secret(&mut parties, "a", 10, t);
    protocol::input_secret(&mut parties, "b", 20, t);
    protocol::input_secret(&mut parties, "c", 30, t);
    protocol::add(&mut parties, "ab", "a", "b");
    protocol::add(&mut parties, "abc", "ab", "c");
    assert_eq!(protocol::open(&parties, "abc", t), 60);
}

#[test]
fn secure_sub_wraps_modulo_prime() {
    let mut parties = make_parties(3);
    let t = 2;
    protocol::input_secret(&mut parties, "a", 5, t);
    protocol::input_secret(&mut parties, "b", 8, t);
    protocol::sub(&mut parties, "d", "a", "b");
    assert_eq!(protocol::open(&parties, "d", t), zk_foundations::mpc_shamir::field::PRIME - 3);
}

#[test]
fn beaver_labels_and_chained_scalar() {
    let mut parties = make_parties(3);
    let t = 2;
    protocol::input_secret(&mut parties, "x", 17, t);
    protocol::input_secret(&mut parties, "y", 19, t);
    let triple = protocol::generate_beaver_triple(&mut parties, "ta", "tb", "tc", t);
    assert_eq!(triple.a_label, "ta");
    assert_eq!(triple.b_label, "tb");
    assert_eq!(triple.c_label, "tc");
    protocol::mul(&mut parties, "p", "x", "y", &triple, t);
    assert_eq!(protocol::open(&parties, "p", t), 323);
    // the masked differences are stored under internal labels
    let _ = parties[0].get_value("__eps_p");
    let _ = parties[0].get_value("__del_p");
    protocol::scalar_mul(&mut parties, "p2", "p", 2);
    assert_eq!(protocol::open(&parties, "p2", 3), 646);
}

#[test]
fn party_storage_overwrites_labels() {
    let mut p = Party::new(3, "Carol");
    p.receive_share("k", 5);
    p.receive_share("j", 6);
    p.receive_share("k", 9);
    assert_eq!(p.get_value("k"), 9);
    assert_eq!(p.get_value("j"), 6);
    let s = p.get_share("k");
    assert_eq!((s.x, s.y), (3, 9));
    assert_eq!(p.id, 3);
    assert_eq!(p.name, "Carol");
}

#[test]
fn generated_triple_opens_to_a_product() {
    let mut parties = make_parties(5);
    let t = 3;
    let triple = protocol::generate_beaver_triple(&mut parties, "ta", "tb", "tc", t);
    let a = protocol::open(&parties, &triple.a_label, t);
    let b = protocol::open(&parties, &triple.b_label, t);
    let c = protocol::open(&parties, &triple.c_label, t);
    assert!(a >= 1 && b >= 1);
    assert_eq!(c, field::mul(a, b));
    // any three of the five parties agree on the opened value
    assert_eq!(protocol::open(&parties[2..], &triple.c_label, t), c);
}

#[test]
fn sharing_then_opening_gives_the_secret_mod_p() {
    let mut parties = make_parties(4);
    protocol::input_secret(&mut parties, "s", PRIME - 1, 2);
    assert_eq!(protocol::open(&parties, "s", 2), PRIME - 1);
    protocol::input_secret(&mut parties, "neg", -5, 4);
    assert_eq!(protocol::open(&parties, "neg", 4), PRIME - 5);
}

#[test]
fn party_reports_which_shares_it_holds() {
    let mut p = Party::new(1, "P1");
    assert!(!p.has_share("x"));
    p.receive_share("x", 5);
    assert!(p.has_share("x"));
    assert!(!p.has_share("y"));
}
