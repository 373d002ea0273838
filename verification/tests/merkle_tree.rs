use lld_rust::merkle_tree::{to_hex, Direction, MerkleTree};
use sha2::{Digest, Sha256};

fn sha(data: &[u8]) -> Vec<u8> {
    Sha256::digest(data).to_vec()
}

fn pair(l: &[u8], r: &[u8]) -> Vec<u8> {
    let mut v = l.to_vec();
    v.extend_from_slice(r);
    sha(&v)
}

#[test]
fn root_of_four_items_hashes_pairs() {
    let tree = MerkleTree::new(vec!["a", "b", "c", "d"]);
    let ab = pair(&sha(b"a"), &sha(b"b"));
    let cd = pair(&sha(b"c"), &sha(b"d"));
    assert_eq!(tree.root(), &pair(&ab, &cd));
}

#[test]
fn root_of_odd_level_pairs_last_with_itself() {
    let tree = MerkleTree::new(vec!["a", "b", "c"]);
    let ab = pair(&sha(b"a"), &sha(b"b"));
    let cc = pair(&sha(b"c"), &sha(b"c"));
    assert_eq!(tree.root(), &pair(&ab, &cc));
}

#[test]
fn root_of_single_item_is_its_hash() {
    let tree = MerkleTree::new(vec!["only"]);
    assert_eq!(tree.root(), &sha(b"only"));
}

#[test]
fn proof_for_c_has_sibling_d_then_ab() {
    let tree = MerkleTree::new(vec!["a", "b", "c", "d"]);
    let proof = tree.generate_proof("c").unwrap();
    assert_eq!(proof.items.len(), 2);
    assert_eq!(proof.items[0].hash, sha(b"d"));
    assert_eq!(proof.items[0].direction, Direction::Right);
    assert_eq!(proof.items[1].hash, pair(&sha(b"a"), &sha(b"b")));
    assert_eq!(proof.items[1].direction, Direction::Left);
}

#[test]
fn generated_proofs_verify_for_every_item() {
    let data = vec!["a", "b", "c", "d", "e"];
    let tree = MerkleTree::new(data.clone());
    for d in data {
        let proof = tree.generate_proof(d).unwrap();
        assert!(MerkleTree::verify_proof(d, &proof, tree.root()));
    }
}

#[test]
fn proof_rejects_other_data_and_other_root() {
    let tree = MerkleTree::new(vec!["a", "b", "c", "d"]);
    let proof = tree.generate_proof("c").unwrap();
    assert!(!MerkleTree::verify_proof("x", &proof, tree.root()));
    let other = MerkleTree::new(vec!["a", "b", "c", "e"]);
    assert!(!MerkleTree::verify_proof("c", &proof, other.root()));
}

#[test]
fn proof_for_unknown_data_is_none() {
    let tree = MerkleTree::new(vec!["a", "b"]);
    assert!(tree.generate_proof("z").is_none());
    let empty = MerkleTree::new(vec![]);
    assert!(empty.generate_proof("a").is_none());
}

#[test]
fn proof_for_repeated_item_starts_at_its_last_leaf() {
    let tree = MerkleTree::new(vec!["a", "b", "a"]);
    let proof = tree.generate_proof("a").unwrap();
    // leaf 2 is paired with itself on the first level
    assert_eq!(proof.items[0].hash, sha(b"a"));
    assert_eq!(proof.items[0].direction, Direction::Right);
    assert!(MerkleTree::verify_proof("a", &proof, tree.root()));
}

#[test]
fn hash_pair_hashes_the_concatenation() {
    assert_eq!(MerkleTree::hash_pair(b"ab", b"cd"), sha(b"abcd"));
}

#[test]
fn to_hex_renders_two_lower_case_digits_per_byte() {
    assert_eq!(to_hex(&[0x0f, 0xa0, 0x00, 0xff]), "0fa000ff");
    assert_eq!(to_hex(&[]), "");
    let tree = MerkleTree::new(vec!["a"]);
    assert_eq!(
        to_hex(tree.root()),
        "ca978112ca1bbdcafac231b39a23dc4da786eff8147c4e72b9807785afee48bb"
    );
}
