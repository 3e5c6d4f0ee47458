//! Byte codecs and digests: node and operation serialization round trips,
//! corruption detection, and the hashing primitives.

use lr_trie::column_family::{fnv1a_hash, u64_to_be_bytes};
use lr_trie::digest::{sha256_digest, KeyHash};
use lr_trie::domain::{i64_to_dec, u128_to_dec};
use lr_trie::errors::LeftRightTrieError;
use lr_trie::node::{decode_node, decode_node_key, encode_node, encode_node_key, Node, NodeKey};
use lr_trie::op::{decode_operation, encode_operation, Operation};
use std::hash::Hasher;

fn hex(bytes: &[u8]) -> String {
    let mut s = String::new();
    for b in bytes {
        s.push_str(&format!("{b:02x}"));
    }
    s
}

#[test]
fn sha256_digest_matches_known_vector() {
    let d = sha256_digest(b"abc");
    assert_eq!(
        hex(&d),
        "ba7816bf8f01cfea414140de5dae2223b00361a396177a9cb410ff61f20015ad"
    );
    assert_eq!(
        hex(&sha256_digest(b"")),
        "e3b0c44298fc1c149afbf4c8996fb92427ae41e4649b934ca495991b7852b855"
    );
}

#[test]
fn fnv_hash_matches_reference_implementation() {
    for name in ["default", "claims", "state", ""] {
        let mut hasher = fnv::FnvHasher::default();
        hasher.write(name.as_bytes());
        assert_eq!(fnv1a_hash(name.as_bytes()), hasher.finish());
    }
}

#[test]
fn big_endian_bytes_match_std() {
    for x in [0u64, 1, 0xcbf29ce484222325, u64::MAX] {
        assert_eq!(u64_to_be_bytes(x), x.to_be_bytes().to_vec());
    }
}

#[test]
fn decimal_rendering_matches_std() {
    for x in [0u128, 7, 10, 12345, u128::MAX] {
        assert_eq!(u128_to_dec(x), x.to_string().into_bytes());
    }
    for x in [0i64, 5, -1, -12345, i64::MIN, i64::MAX] {
        assert_eq!(i64_to_dec(x), x.to_string().into_bytes());
    }
}

#[test]
fn node_codec_round_trips() {
    let leaf = Node::Leaf {
        key_hash: KeyHash::with_sha256(b"some key"),
        value_hash: sha256_digest(b"some value"),
    };
    let encoded = encode_node(&leaf);
    let decoded = decode_node(&encoded).unwrap();
    assert_eq!(encode_node(&decoded), encoded);

    let null = Node::Null;
    assert_eq!(encode_node(&decode_node(&encode_node(&null)).unwrap()), vec![0u8]);

    let nk = NodeKey { version: 7, nibble_path: vec![0, 15, 3] };
    let ek = encode_node_key(&nk);
    let dk = decode_node_key(&ek).unwrap();
    assert_eq!(dk.version, 7);
    assert_eq!(dk.nibble_path, vec![0, 15, 3]);
}

#[test]
fn corrupt_node_blobs_are_rejected() {
    let err = decode_node(&vec![9u8, 1, 2]).unwrap_err();
    assert!(matches!(err, LeftRightTrieError::CorruptNode));
    let err = decode_node(&Vec::new()).unwrap_err();
    assert!(matches!(err, LeftRightTrieError::CorruptNode));
    // a leaf tag with a mis-sized body
    let err = decode_node(&vec![1u8, 2, 3]).unwrap_err();
    assert!(matches!(err, LeftRightTrieError::CorruptNode));
    // a path nibble out of range
    let mut bad_key = 7u64.to_le_bytes().to_vec();
    bad_key.push(16);
    let err = decode_node_key(&bad_key).unwrap_err();
    assert!(matches!(err, LeftRightTrieError::CorruptNode));
}

#[test]
fn operation_codec_round_trips() {
    let add = Operation::Add(
        (KeyHash::with_sha256(b"k"), Some(b"value bytes".to_vec())),
        3,
    );
    let encoded = encode_operation(&add);
    // tag, version, key hash, presence, length, bytes
    assert_eq!(encoded.len(), 1 + 8 + 32 + 1 + 8 + 11);
    assert_eq!(encoded[0], 0);
    let decoded = decode_operation(&encoded).unwrap();
    assert_eq!(encode_operation(&decoded), encoded);

    let remove = Operation::Remove(KeyHash::with_sha256(b"k"), 9);
    let encoded = encode_operation(&remove);
    assert_eq!(encoded.len(), 41);
    let decoded = decode_operation(&encoded).unwrap();
    assert_eq!(encode_operation(&decoded), encoded);

    let extend = Operation::Extend(
        vec![
            (KeyHash::with_sha256(b"a"), Some(b"1".to_vec())),
            (KeyHash::with_sha256(b"b"), None),
        ],
        4,
    );
    let encoded = encode_operation(&extend);
    let decoded = decode_operation(&encoded).unwrap();
    assert_eq!(encode_operation(&decoded), encoded);
}

#[test]
fn malformed_operation_bytes_are_codec_errors() {
    let err = decode_operation(&vec![0u8, 1]).unwrap_err();
    assert!(matches!(err, LeftRightTrieError::Codec(_)));
    let err = decode_operation(&vec![9u8; 48]).unwrap_err();
    assert!(matches!(err, LeftRightTrieError::Codec(_)));
    // a valid operation with trailing garbage is rejected
    let mut encoded = encode_operation(&Operation::Remove(KeyHash::with_sha256(b"k"), 1));
    encoded.push(0);
    let err = decode_operation(&encoded).unwrap_err();
    assert!(matches!(err, LeftRightTrieError::Codec(_)));
}
