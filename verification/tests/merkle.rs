use aerokv::merkle::{calc_merkle_root, hex_list, leaf_position, prove_keys, rebuild_merkle_tree, root_of, MerkleState};
use aerokv::storage::engine::DiskClient;
use rs_merkle::algorithms::Sha256;
use rs_merkle::{Hasher, MerkleTree};

fn store(keys: &[&[u8]]) -> DiskClient {
    let mut db = DiskClient::new(Vec::new()).unwrap();
    for k in keys {
        db.set(k.to_vec(), b"v".to_vec()).unwrap();
    }
    db
}

#[test]
fn the_leaf_of_a_key_is_its_sha256() {
    let db = store(&[b"abc"]);
    let mut m = MerkleState::new();
    let root = calc_merkle_root(&db, &mut m);
    let abc = "ba7816bf8f01cfea414140de5dae2223b00361a396177a9cb410ff61f20015ad";
    assert_eq!(hex_list(&m.leaf_hashes), vec![abc.to_string()]);
    assert_eq!(hex_list(&vec![root]), vec![abc.to_string()]);
}

#[test]
fn hex_is_lowercase_two_digits_per_byte() {
    let mut h = [0u8; 32];
    h[..4].copy_from_slice(&[0x00, 0x0f, 0xa0, 0xff]);
    assert_eq!(hex_list(&vec![h]), vec![format!("000fa0ff{}", "00".repeat(28))]);
    assert_eq!(hex_list(&vec![[1u8; 32]]), vec!["01".repeat(32)]);
}

#[test]
fn an_empty_store_has_a_zero_root() {
    let db = store(&[]);
    let mut m = MerkleState::new();
    assert_eq!(calc_merkle_root(&db, &mut m), [0u8; 32]);
    assert!(m.leaf_hashes.is_empty());
}

#[test]
fn the_root_is_that_of_the_hashed_keys_in_order() {
    let db = store(&[b"b", b"a", b"c"]);
    let mut m = MerkleState::new();
    let root = rebuild_merkle_tree(&db, &mut m);
    let leaves: Vec<[u8; 32]> = [b"a", b"b", b"c"].iter().map(|k| Sha256::hash(*k)).collect();
    assert_eq!(m.leaf_hashes, leaves);
    let expected = MerkleTree::<Sha256>::from_leaves(&leaves).root().unwrap();
    assert_eq!(root, expected);
    assert_eq!(root_of(&m), expected);
}

#[test]
fn leaf_position_finds_the_first_match() {
    let h = [7u8; 32];
    let leaves = vec![[1u8; 32], h, h];
    assert_eq!(leaf_position(&leaves, &h), Some(1));
    assert_eq!(leaf_position(&leaves, &[9u8; 32]), None);
}

#[test]
fn proofs_cover_the_keys_found_among_the_leaves() {
    let db = store(&[b"a", b"b", b"c", b"d"]);
    let mut m = MerkleState::new();
    let root = calc_merkle_root(&db, &mut m);
    let proof = prove_keys(&m, &vec![b"c".to_vec(), b"zz".to_vec(), b"a".to_vec()]);
    assert_eq!(proof.leaf_indices, vec![2, 0]);
    assert_eq!(proof.key_hashes, vec![hex::encode(Sha256::hash(b"c")), hex::encode(Sha256::hash(b"a"))]);
    assert_eq!(proof.merkle_root, hex::encode(root));
    let leaves: Vec<[u8; 32]> = [b"a", b"b", b"c", b"d"].iter().map(|k| Sha256::hash(*k)).collect();
    let tree = MerkleTree::<Sha256>::from_leaves(&leaves);
    let expected: Vec<String> = tree.proof(&[2, 0]).proof_hashes().iter().map(hex::encode).collect();
    assert_eq!(proof.proof, expected);
    // the proof verifies against the root
    let p = tree.proof(&[0, 2]);
    assert!(p.verify(root, &[0, 2], &[leaves[0], leaves[2]], 4));
}
