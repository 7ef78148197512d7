use optchain::hash::{Hashable, H256};
use optchain::hex::{decode_hex, HexError};
use optchain::merkle::{merkle_verify, MerkleTree};
use optchain::transaction::Transaction;

fn h(b: u8) -> H256 {
    H256([b; 32])
}

#[test]
fn zero_hash_is_all_zero_bytes() {
    let z = H256::zero();
    assert_eq!(z.0, [0u8; 32]);
    assert!(z.equals(&H256::default()));
}

#[test]
fn sha256_of_abc_matches_the_standard_vector() {
    let d = H256::digest_bytes(b"abc");
    assert_eq!(
        hex::encode(d.0),
        "ba7816bf8f01cfea414140de5dae2223b00361a396177a9cb410ff61f20015ad"
    );
}

#[test]
fn hash_of_a_hash_is_sha256_of_its_bytes() {
    let x = h(7);
    assert!(x.hash().equals(&H256::digest_bytes(&[7u8; 32])));
}

#[test]
fn pow_hash_appends_the_nonce_big_endian() {
    let x = h(1);
    let mut bytes = vec![1u8; 32];
    bytes.extend_from_slice(&[0x01, 0x02, 0x03, 0x04]);
    assert!(H256::pow_hash(&x, 0x0102_0304).equals(&H256::digest_bytes(&bytes)));
}

#[test]
fn pair_and_multi_hash_concatenate() {
    let a = h(1);
    let b = h(2);
    let mut bytes = vec![1u8; 32];
    bytes.extend_from_slice(&[2u8; 32]);
    let expected = H256::digest_bytes(&bytes);
    assert!(H256::pair_hash(&a, &b).equals(&expected));
    assert!(H256::multi_hash(&vec![a, b]).equals(&expected));
    assert!(H256::multi_hash(&vec![]).equals(&H256::digest_bytes(&[])));
}

#[test]
fn transaction_hash_is_sha256_of_its_bytes() {
    let t = Transaction::new(vec![1, 2, 3]);
    assert!(t.hash().equals(&H256::digest_bytes(&[1, 2, 3])));
    assert_eq!(t.data(), &vec![1u8, 2, 3]);
}

#[test]
fn decode_hex_reads_pairs() {
    assert_eq!(decode_hex("0aff").unwrap(), vec![10u8, 255]);
    assert_eq!(decode_hex("FFfe").unwrap(), vec![255u8, 254]);
    assert_eq!(decode_hex("").unwrap(), Vec::<u8>::new());
    assert_eq!(decode_hex("+f").unwrap(), vec![15u8]);
}

#[test]
fn decode_hex_reports_the_bad_pair() {
    assert_eq!(decode_hex("zz00"), Err(HexError::InvalidDigit { index: 0 }));
    assert_eq!(decode_hex("00g1"), Err(HexError::InvalidDigit { index: 2 }));
    assert_eq!(decode_hex("1g3"), Err(HexError::InvalidDigit { index: 0 }));
    assert_eq!(decode_hex("00zz0"), Err(HexError::InvalidDigit { index: 2 }));
}

#[test]
fn decode_hex_of_a_difficulty_gives_32_bytes() {
    let s = "ffffffffffffffffffffffffffffffffffffffffffffffffffffffffffffffff";
    let v = decode_hex(s).unwrap();
    assert_eq!(v.len(), 32);
    assert!(v.iter().all(|b| *b == 255));
}

#[test]
fn merkle_proofs_verify_at_their_index() {
    let data = vec![h(1), h(2), h(3)];
    let tree = MerkleTree::<H256>::new(&data);
    let root = tree.root();
    for i in 0..3 {
        let leaf = data[i].hash();
        let path = tree.inclusion_proof(i);
        assert!(tree.merkle_prove(&leaf, &path, i));
        assert!(merkle_verify(&root, &leaf, &path, i, 3));
        assert!(!merkle_verify(&root, &leaf, &path, (i + 1) % 3, 3));
        assert!(!merkle_verify(&root, &leaf, &path, i, i));
    }
}

#[test]
fn merkle_root_of_two_leaves_is_their_pair_hash() {
    let data = vec![h(1), h(2)];
    let tree = MerkleTree::<H256>::new(&data);
    let expected = H256::pair_hash(&h(1).hash(), &h(2).hash());
    assert!(tree.root().equals(&expected));
}

#[test]
fn merkle_root_of_one_leaf_is_the_leaf_and_of_none_is_zero() {
    let one = MerkleTree::<H256>::new(&[h(9)]);
    assert!(one.root().equals(&h(9).hash()));
    let none = MerkleTree::<H256>::new(&[]);
    assert!(none.root().equals(&H256::zero()));
    assert_eq!(none.len(), 0);
}

#[test]
fn merkle_odd_level_pairs_the_last_with_itself() {
    let data = vec![h(1), h(2), h(3)];
    let tree = MerkleTree::<H256>::new(&data);
    let l = [h(1).hash(), h(2).hash(), h(3).hash()];
    let left = H256::pair_hash(&l[0], &l[1]);
    let right = H256::pair_hash(&l[2], &l[2]);
    assert!(tree.root().equals(&H256::pair_hash(&left, &right)));
}
