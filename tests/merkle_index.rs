use sha2::Digest;
use shard_merkle::{
    append_to_tree, create_proof_bytes, create_tree, get_root, get_root_hex, merkle_proof, MerkleError,
};

fn sha(data: &[u8]) -> [u8; 32] {
    <[u8; 32]>::from(sha2::Sha256::digest(data))
}

fn pair(a: &[u8; 32], b: &[u8; 32]) -> [u8; 32] {
    let mut both = a.to_vec();
    both.extend_from_slice(b);
    sha(&both)
}

fn values(v: &[&str]) -> Vec<Vec<u8>> {
    v.iter().map(|s| s.as_bytes().to_vec()).collect()
}

#[test]
fn root_of_three_by_hand() {
    let tree = create_tree(&values(&["a", "b", "c"])).unwrap();
    let expected = pair(&pair(&sha(b"a"), &sha(b"b")), &sha(b"c"));
    assert_eq!(get_root(&tree).unwrap(), expected);
    let again = create_tree(&values(&["a", "b", "c"])).unwrap();
    assert_eq!(get_root(&again).unwrap(), expected);
}

#[test]
fn empty_tree_is_refused() {
    assert!(matches!(create_tree(&vec![]), Err(MerkleError::Empty)));
}

#[test]
fn proof_bytes_layout() {
    let tree = create_tree(&values(&["a", "b", "c"])).unwrap();
    let bytes = create_proof_bytes(&vec![2], &tree).unwrap();
    let mut expected = vec![0, 0, 0, 0, 0, 0, 0, 3, 0, 0, 0, 0, 0, 0, 0, 1, 0];
    expected.extend_from_slice(&pair(&sha(b"a"), &sha(b"b")));
    assert_eq!(bytes, expected);
}

#[test]
fn every_leaf_proves() {
    let leaves = values(&["a", "b", "c", "d", "e"]);
    let tree = create_tree(&leaves).unwrap();
    let root = get_root(&tree).unwrap();
    for i in 0..leaves.len() {
        let bytes = create_proof_bytes(&vec![i], &tree).unwrap();
        let ok = merkle_proof(&bytes, &vec![i], &vec![leaves[i].clone()], root, leaves.len());
        assert_eq!(ok, Ok(true));
    }
}

#[test]
fn tampering_fails() {
    let leaves = values(&["a", "b", "c", "d", "e"]);
    let tree = create_tree(&leaves).unwrap();
    let root = get_root(&tree).unwrap();
    let bytes = create_proof_bytes(&vec![1], &tree).unwrap();
    let one = vec![leaves[1].clone()];

    let mut bad_root = root;
    bad_root[5] ^= 0x10;
    assert_eq!(merkle_proof(&bytes, &vec![1], &one, bad_root, 5), Ok(false));

    let mut bad_bytes = bytes.clone();
    bad_bytes[17 + 3] ^= 0x01;
    assert_eq!(merkle_proof(&bad_bytes, &vec![1], &one, root, 5), Ok(false));

    let mut bad_value = one.clone();
    bad_value[0][0] ^= 0x02;
    assert_eq!(merkle_proof(&bytes, &vec![1], &bad_value, root, 5), Ok(false));
}

#[test]
fn proof_before_append_fails_after() {
    let mut tree = create_tree(&values(&["a", "b", "c"])).unwrap();
    let bytes = create_proof_bytes(&vec![2], &tree).unwrap();
    append_to_tree(&mut tree, &values(&["d", "e"]));
    assert_eq!(tree.leaf_count(), 5);
    let new_root = get_root(&tree).unwrap();
    let ok = merkle_proof(&bytes, &vec![2], &values(&["c"]), new_root, 5);
    assert_eq!(ok, Ok(false));
    let fresh = create_proof_bytes(&vec![2], &tree).unwrap();
    assert_eq!(merkle_proof(&fresh, &vec![2], &values(&["c"]), new_root, 5), Ok(true));
}

#[test]
fn append_matches_building_at_once() {
    let mut tree = create_tree(&values(&["a", "b", "c"])).unwrap();
    append_to_tree(&mut tree, &values(&["d", "e"]));
    let whole = create_tree(&values(&["a", "b", "c", "d", "e"])).unwrap();
    assert_eq!(get_root(&tree).unwrap(), get_root(&whole).unwrap());
}

#[test]
fn malformed_proofs() {
    let tree = create_tree(&values(&["a", "b", "c"])).unwrap();
    let root = get_root(&tree).unwrap();
    let bytes = create_proof_bytes(&vec![2], &tree).unwrap();
    let c = values(&["c"]);
    assert_eq!(merkle_proof(&bytes[..20].to_vec(), &vec![2], &c, root, 3), Err(MerkleError::ProofFormat));
    assert_eq!(merkle_proof(&vec![0; 10], &vec![2], &c, root, 3), Err(MerkleError::ProofFormat));
    let mut bad_side = bytes.clone();
    bad_side[16] = 2;
    assert_eq!(merkle_proof(&bad_side, &vec![2], &c, root, 3), Err(MerkleError::ProofFormat));
}

#[test]
fn proof_index_out_of_range() {
    let tree = create_tree(&values(&["a", "b", "c"])).unwrap();
    assert!(matches!(create_proof_bytes(&vec![3], &tree), Err(MerkleError::Index)));
}

#[test]
fn root_in_hex() {
    let tree = create_tree(&values(&["a", "b", "c"])).unwrap();
    let root = get_root(&tree).unwrap();
    let hex: String = root.iter().map(|b| format!("{:02x}", b)).collect();
    let got = get_root_hex(&tree).unwrap();
    assert_eq!(got.len(), 64);
    assert_eq!(got, hex);
}

#[test]
fn several_leaves_prove_together() {
    let leaves = values(&["a", "b", "c", "d", "e", "f", "g"]);
    let tree = create_tree(&leaves).unwrap();
    let root = get_root(&tree).unwrap();
    let indices = vec![1, 3, 6];
    let bytes = create_proof_bytes(&indices, &tree).unwrap();
    let picked: Vec<Vec<u8>> = indices.iter().map(|&i| leaves[i].clone()).collect();
    assert_eq!(merkle_proof(&bytes, &indices, &picked, root, 7), Ok(true));
}

#[test]
fn flipped_side_flag_fails() {
    let leaves = values(&["a", "b", "c", "d", "e"]);
    let tree = create_tree(&leaves).unwrap();
    let root = get_root(&tree).unwrap();
    let bytes = create_proof_bytes(&vec![1], &tree).unwrap();
    let mut flipped = bytes.clone();
    flipped[16] ^= 1;
    assert_eq!(merkle_proof(&flipped, &vec![1], &vec![leaves[1].clone()], root, 5), Ok(false));
}

#[test]
fn unsorted_and_repeated_indices_prove() {
    let leaves = values(&["a", "b", "c", "d", "e", "f", "g"]);
    let tree = create_tree(&leaves).unwrap();
    let root = get_root(&tree).unwrap();
    let indices = vec![6, 1, 3, 1];
    let bytes = create_proof_bytes(&indices, &tree).unwrap();
    assert_eq!(bytes, create_proof_bytes(&vec![1, 3, 6], &tree).unwrap());
    let picked: Vec<Vec<u8>> = indices.iter().map(|&i| leaves[i].clone()).collect();
    assert_eq!(merkle_proof(&bytes, &indices, &picked, root, 7), Ok(true));
}

#[test]
fn empty_index_list_proves_nothing() {
    let tree = create_tree(&values(&["a", "b", "c"])).unwrap();
    let root = get_root(&tree).unwrap();
    let bytes = create_proof_bytes(&vec![], &tree).unwrap();
    assert_eq!(merkle_proof(&bytes, &vec![], &vec![], root, 3), Ok(false));
}
