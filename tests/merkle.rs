use sha2::{Digest, Sha256};
use zk_protocols::merkle_tree::MerkleTree;

#[test]
fn test_merkle_tree() {
    let data: Vec<&[u8]> = vec![
        b"hello", b"world", b"foo", b"bar", b"baz", b"qux", b"quux", b"corge",
    ];

    let tree = MerkleTree::new(&data);

    for leaf in data.iter() {
        let proof = tree.generate_proof(leaf).unwrap();
        assert!(tree.verify_proof(leaf, &proof));
    }
}

#[test]
fn merkle_tree_test_verify_proof() {
    let data: Vec<&[u8]> = vec![
        b"hello", b"world", b"foo", b"bar", b"baz", b"qux", b"quux", b"corge",
    ];
    let tree = MerkleTree::new(&data);
    let input_to_prove = b"foo";
    let proof = tree.generate_proof(input_to_prove).unwrap();
    let is_valid = tree.verify_proof(input_to_prove, &proof);
    assert!(is_valid);
}

#[test]
fn test_verify_proof_num() {
    let input = vec![1, 2, 3, 4, 5, 6, 7, 8];
    let string_data: Vec<String> = input.iter().map(|num: &i32| num.to_string()).collect();
    let data: Vec<&[u8]> = string_data.iter().map(|s| s.as_bytes()).collect();
    let tree = MerkleTree::new(&data);
    let input_to_prove = b"6";
    let proof = tree.generate_proof(input_to_prove).unwrap();
    let is_valid = tree.verify_proof(input_to_prove, &proof);
    assert!(is_valid);
}

#[test]
fn merkle_odd_leaf_count_verifies_every_leaf() {
    let data: Vec<&[u8]> = vec![b"a", b"b", b"c", b"d", b"e"];
    let tree = MerkleTree::new(&data);
    for leaf in data.iter() {
        let proof = tree.generate_proof(leaf).unwrap();
        assert_eq!(proof.siblings.len(), 3);
        assert!(tree.verify_proof(leaf, &proof));
    }
}

#[test]
fn merkle_missing_leaf_has_no_proof() {
    let data: Vec<&[u8]> = vec![b"a", b"b"];
    let tree = MerkleTree::new(&data);
    assert!(tree.generate_proof(b"z").is_none());
    let proof = tree.generate_proof(b"a").unwrap();
    assert!(!tree.verify_proof(b"z", &proof));
}

#[test]
fn merkle_tampered_sibling_is_rejected() {
    let data: Vec<&[u8]> = vec![b"a", b"b", b"c", b"d"];
    let tree = MerkleTree::new(&data);
    let mut proof = tree.generate_proof(b"c").unwrap();
    proof.siblings[0][0] ^= 1;
    assert!(!tree.verify_proof(b"c", &proof));
}

#[test]
fn merkle_empty_tree_has_no_root() {
    let data: Vec<&[u8]> = vec![];
    let tree = MerkleTree::new(&data);
    assert!(tree.root().is_none());
    assert!(tree.generate_proof(b"a").is_none());
}

#[test]
fn merkle_root_of_two_leaves_hashes_the_pair() {
    let data: Vec<&[u8]> = vec![b"x", b"y"];
    let tree = MerkleTree::new(&data);
    let hx = Sha256::digest(b"x").to_vec();
    let hy = Sha256::digest(b"y").to_vec();
    let expected = Sha256::digest([hx, hy].concat()).to_vec();
    assert_eq!(tree.root().unwrap(), expected);
}
