use zk_foundations::merkle_tree::MerkleTree;

#[test]
fn test_basic_construction() {
    let mut tree = MerkleTree::new(4);
    tree.add_leaf(b"leaf 0");
    tree.add_leaf(b"leaf 1");
    tree.add_leaf(b"leaf 2");
    tree.add_leaf(b"leaf 3");

    assert_eq!(tree.leaf_count(), 4);
}

#[test]
fn test_proof_verification() {
    let mut tree = MerkleTree::new(4);
    let data: Vec<&[u8]> = vec![b"apple", b"banana", b"cherry", b"date"];
    for d in &data {
        tree.add_leaf(*d);
    }

    let root = tree.root();

    for (i, d) in data.iter().enumerate() {
        let leaf_hash = MerkleTree::hash_leaf(*d);
        let proof = tree.get_proof(i);
        assert!(MerkleTree::verify_proof(&root, &leaf_hash, &proof), "Proof failed for index {}", i);
    }
}

#[test]
fn test_update_leaf() {
    let mut tree = MerkleTree::new(2);
    tree.add_leaf(b"A");
    tree.add_leaf(b"B");

    let old_root = tree.root();

    tree.update_leaf(0, b"C");
    let new_root = tree.root();

    assert_ne!(old_root, new_root);

    let leaf_hash = MerkleTree::hash_leaf(b"C");
    let proof = tree.get_proof(0);
    assert!(MerkleTree::verify_proof(&new_root, &leaf_hash, &proof));
}

#[test]
fn empty_tree_root_is_zero() {
    let tree = MerkleTree::new(8);
    assert_eq!(tree.root(), [0u8; 32]);
    assert_eq!(tree.leaf_count(), 0);
}

#[test]
fn single_leaf_capacity_one_root_is_leaf_hash() {
    let mut tree = MerkleTree::new(1);
    tree.add_leaf(b"only");
    assert_eq!(tree.root(), MerkleTree::hash_leaf(b"only"));
    assert!(tree.get_proof(0).is_empty());
}

#[test]
fn leaf_hash_is_domain_separated_sha256() {
    // SHA-256 of the single byte 0x00 (the leaf of empty data).
    let h = MerkleTree::hash_leaf(b"");
    assert_eq!(
        h,
        [
            0x6e, 0x34, 0x0b, 0x9c, 0xff, 0xb3, 0x7a, 0x98, 0x9c, 0xa5, 0x44, 0xe6, 0xbb, 0x78,
            0x0a, 0x2c, 0x78, 0x90, 0x1d, 0x3f, 0xb3, 0x37, 0x38, 0x76, 0x85, 0x11, 0xa3, 0x06,
            0x17, 0xaf, 0xa0, 0x1d
        ]
    );
    assert_ne!(h, [0u8; 32]);
}

#[test]
fn partial_tree_root_and_proofs() {
    // Three leaves in a tree of capacity 4: the fourth leaf and its parent's right
    // child stay zero.
    let mut tree = MerkleTree::new(4);
    tree.add_leaf(b"a");
    tree.add_leaf(b"b");
    tree.add_leaf(b"c");
    let ha = MerkleTree::hash_leaf(b"a");
    let hb = MerkleTree::hash_leaf(b"b");
    let hc = MerkleTree::hash_leaf(b"c");
    let left = MerkleTree::hash_internal(&ha, &hb);
    let right = MerkleTree::hash_internal(&hc, &[0u8; 32]);
    assert_eq!(tree.root(), MerkleTree::hash_internal(&left, &right));
    let proof = tree.get_proof(2);
    assert_eq!(proof, vec![([0u8; 32], true), (left, false)]);
    assert!(MerkleTree::verify_proof(&tree.root(), &hc, &proof));
    assert!(!MerkleTree::verify_proof(&tree.root(), &ha, &proof));
}

#[test]
fn two_level_root_by_hand() {
    let mut tree = MerkleTree::new(2);
    tree.add_leaf(b"x");
    let hx = MerkleTree::hash_leaf(b"x");
    assert_eq!(tree.root(), MerkleTree::hash_internal(&hx, &[0u8; 32]));
    tree.add_leaf(b"y");
    let hy = MerkleTree::hash_leaf(b"y");
    assert_eq!(tree.root(), MerkleTree::hash_internal(&hx, &hy));
    assert_eq!(tree.get_proof(1), vec![(hx, false)]);
}

#[test]
fn tampered_proof_is_rejected() {
    let mut tree = MerkleTree::new(4);
    for d in [b"1", b"2", b"3", b"4"] {
        tree.add_leaf(d);
    }
    let mut proof = tree.get_proof(1);
    proof[0].1 = !proof[0].1;
    assert!(!MerkleTree::verify_proof(&tree.root(), &MerkleTree::hash_leaf(b"2"), &proof));
}
