//! The versioned tree, its typed facade, and the left-right front-end:
//! round trips, removal visibility, publish semantics, root determinism,
//! and Merkle proofs.

use lr_trie::db_adapter::DbAdapter;
use lr_trie::digest::KeyHash;
use lr_trie::errors::LeftRightTrieError;
use lr_trie::jmt::JellyfishMerkleTree;
use lr_trie::tree_wrapper::JellyfishMerkleTreeWrapper;
use lr_trie::backend::TreeReader;
use lr_trie::trie::LeftRightTrie;

#[test]
fn test_wrapper_can_add_remove_values() {
    let db = DbAdapter::new();
    let jmt = JellyfishMerkleTree::new(db);
    let mut wrapper = JellyfishMerkleTreeWrapper::new(jmt);

    let key = b"Ada Lovelace".to_vec();
    let value = b"Analytical Engine".to_vec();
    let mut version = 1;

    wrapper.insert(&key, value).unwrap();
    let contains_key = wrapper.contains(&key, version).unwrap();
    assert!(contains_key);

    version += 1;  // update version when adding or removing
    wrapper.remove(&key).unwrap();
    let contains_key = wrapper.contains(&key, version).unwrap();
    assert!(!contains_key);

    assert_eq!(wrapper.version(), 2);
}

#[test]
fn should_store_arbitrary_values() {
    let db = DbAdapter::new();
    let mut trie = LeftRightTrie::new(db);

    trie.insert(&b"abcdefg".to_vec(), bincode::serialize(&100usize).unwrap());
    trie.publish();

    let raw = trie.handle().get(&b"abcdefg".to_vec(), 1).unwrap();
    let value: usize = bincode::deserialize(&raw).unwrap();

    assert_eq!(value, 100);
}

#[test]
fn trie_should_store_arbitrary_values() {
    let db = DbAdapter::new();
    let mut trie = LeftRightTrie::new(db);

    trie.insert(&b"abcdefg".to_vec(), bincode::serialize(&100usize).unwrap());
    trie.publish();

    let raw = trie.handle().get(&b"abcdefg".to_vec(), 1).unwrap();
    let value: usize = bincode::deserialize(&raw).unwrap();

    assert_eq!(value, 100);
}

#[test]
fn publish_makes_a_whole_batch_visible() {
    let db = DbAdapter::new();
    let mut trie = LeftRightTrie::new(db);
    assert_eq!(trie.version(), 0);

    let total = 18u64;
    for n in 0..total {
        let key = format!("test-{n}").into_bytes();
        trie.insert(&key, bincode::serialize(&12345usize).unwrap());
    }

    // nothing is visible before the publish
    assert_eq!(trie.len(), 0);
    assert!(trie.is_empty());

    trie.publish();

    let reader = trie.handle();
    assert_eq!(reader.len() as u64, total);
    for n in 0..total {
        let key = format!("test-{n}").into_bytes();
        let res: usize = bincode::deserialize(&reader.get(&key, 18).unwrap()).unwrap();
        assert_eq!(res, 12345);
    }
    assert_eq!(trie.version(), 18);
    assert_eq!(trie.value_history().len(), 18);
}

#[test]
fn handles_of_one_epoch_observe_equal_state() {
    let db = DbAdapter::new();
    let mut trie = LeftRightTrie::new(db);
    trie.insert(&b"alpha".to_vec(), b"1".to_vec());
    trie.insert(&b"beta".to_vec(), b"2".to_vec());
    trie.publish();

    let factory = trie.factory();
    let r1 = factory.handle();
    let r2 = factory.clone().handle();
    assert_eq!(r1.len(), r2.len());
    assert_eq!(r1.version(), r2.version());
    assert_eq!(
        r1.root_hash(r1.version()).unwrap(),
        r2.root_hash(r2.version()).unwrap()
    );

    // a handle taken before a publish pins its snapshot
    let before = trie.handle();
    trie.insert(&b"gamma".to_vec(), b"3".to_vec());
    trie.publish();
    assert_eq!(before.len(), 2);
    assert_eq!(trie.handle().len(), 3);
}

#[test]
fn rebuilding_from_the_same_operations_matches_roots() {
    let db1 = DbAdapter::new();
    let mut trie1 = LeftRightTrie::new(db1);
    trie1.insert(&b"first-key".to_vec(), b"first-value".to_vec());
    trie1.publish();
    let v1 = trie1.version();
    let root1_a = trie1.root(v1).unwrap();
    trie1.insert(&b"second-key".to_vec(), b"second-value".to_vec());
    trie1.publish();
    let v2 = trie1.version();
    let root2_a = trie1.root(v2).unwrap();

    let db2 = DbAdapter::new();
    let mut trie2 = LeftRightTrie::new(db2);
    trie2.insert(&b"first-key".to_vec(), b"first-value".to_vec());
    trie2.publish();
    let root1_b = trie2.root(v1).unwrap();
    trie2.insert(&b"second-key".to_vec(), b"second-value".to_vec());
    trie2.publish();
    let root2_b = trie2.root(v2).unwrap();

    assert_eq!(root1_a, root1_b);
    assert_eq!(root2_a, root2_b);
    assert_ne!(root1_a, root2_a);
}

#[test]
fn inclusion_proof_verifies_against_matching_root() {
    let db = DbAdapter::new();
    let mut trie = LeftRightTrie::new(db);
    trie.insert(&b"alpha".to_vec(), b"1".to_vec());
    trie.insert(&b"beta".to_vec(), b"2".to_vec());
    trie.insert(&b"gamma".to_vec(), b"3".to_vec());
    trie.publish();

    let version = trie.version();
    let root = trie.root_latest().unwrap();
    let proof = trie.get_proof(&b"beta".to_vec(), version).unwrap();
    let key = KeyHash::with_sha256(b"beta");
    assert!(trie.verify_proof(&key, version, &root, &proof).is_ok());
}

#[test]
fn exclusion_proof_for_absent_key_verifies() {
    let db = DbAdapter::new();
    let mut trie = LeftRightTrie::new(db);
    trie.insert(&b"alpha".to_vec(), b"1".to_vec());
    trie.insert(&b"beta".to_vec(), b"2".to_vec());
    trie.publish();

    let version = trie.version();
    let root = trie.root_latest().unwrap();
    let proof = trie.get_proof(&b"ghost".to_vec(), version).unwrap();
    let key = KeyHash::with_sha256(b"ghost");
    assert!(trie.verify_proof(&key, version, &root, &proof).is_ok());
}

#[test]
fn proof_against_wrong_root_is_a_mismatch() {
    let db = DbAdapter::new();
    let mut trie = LeftRightTrie::new(db);
    trie.insert(&b"alpha".to_vec(), b"1".to_vec());
    trie.publish();
    let v1 = trie.version();
    let root1 = trie.root(v1).unwrap();
    trie.insert(&b"beta".to_vec(), b"2".to_vec());
    trie.publish();
    let v2 = trie.version();
    let root2 = trie.root(v2).unwrap();
    assert_ne!(root1, root2);

    let proof = trie.get_proof(&b"alpha".to_vec(), v1).unwrap();
    let key = KeyHash::with_sha256(b"alpha");
    assert!(trie.verify_proof(&key, v1, &root1, &proof).is_ok());
    let err = trie.verify_proof(&key, v1, &root2, &proof).unwrap_err();
    assert!(matches!(err, LeftRightTrieError::ProofMismatch));
}

#[test]
fn reads_are_versioned_and_removal_is_visible() {
    let db = DbAdapter::new();
    let jmt = JellyfishMerkleTree::new(db);
    let mut wrapper = JellyfishMerkleTreeWrapper::new(jmt);

    let key = b"versioned".to_vec();
    wrapper.insert(&key, b"one".to_vec()).unwrap();
    wrapper.insert(&key, b"two".to_vec()).unwrap();
    assert_eq!(wrapper.get(&key, 1).unwrap(), b"one".to_vec());
    assert_eq!(wrapper.get(&key, 2).unwrap(), b"two".to_vec());

    let removed = wrapper.remove(&key).unwrap();
    assert!(removed);
    assert!(wrapper.contains(&key, 2).unwrap());
    assert!(!wrapper.contains(&key, 3).unwrap());
    // reading a key with no value at the version is NotFound
    let err = wrapper.get(&key, 3).unwrap_err();
    assert!(matches!(err, LeftRightTrieError::NotFound));
    // reading below the first event is NotFound too
    let err = wrapper.get(&b"never".to_vec(), 3).unwrap_err();
    assert!(matches!(err, LeftRightTrieError::NotFound));
}

#[test]
fn put_value_set_rejects_non_monotone_versions() {
    let db = DbAdapter::new();
    let jmt = JellyfishMerkleTree::new(db);
    let mut wrapper = JellyfishMerkleTreeWrapper::new(jmt);
    wrapper.insert(&b"k".to_vec(), b"v".to_vec()).unwrap();

    let stale = wrapper
        .put_and_write(vec![(KeyHash::with_sha256(b"k"), Some(b"w".to_vec()))], 1)
        .unwrap_err();
    assert!(matches!(stale, LeftRightTrieError::VersionNotMonotone));

    let jmt2 = JellyfishMerkleTree::new(DbAdapter::new());
    let err = jmt2
        .put_value_set(&vec![(KeyHash::with_sha256(b"k"), Some(b"w".to_vec()))], 0)
        .unwrap_err();
    assert!(matches!(err, LeftRightTrieError::VersionNotMonotone));
}

#[test]
fn extend_applies_one_value_set_atomically() {
    let db = DbAdapter::new();
    let mut trie = LeftRightTrie::new(db);
    trie.extend(vec![
        (b"x".to_vec(), Some(b"1".to_vec())),
        (b"y".to_vec(), Some(b"2".to_vec())),
        (b"x".to_vec(), Some(b"3".to_vec())),
    ]);
    trie.publish();

    // one value set means one version; the later write of the same key wins
    assert_eq!(trie.version(), 1);
    let reader = trie.handle();
    assert_eq!(reader.get(&b"x".to_vec(), 1).unwrap(), b"3".to_vec());
    assert_eq!(reader.get(&b"y".to_vec(), 1).unwrap(), b"2".to_vec());
    assert_eq!(reader.len(), 2);
}

#[test]
fn value_history_versions_strictly_increase() {
    let db = DbAdapter::new();
    let jmt = JellyfishMerkleTree::new(db);
    let mut wrapper = JellyfishMerkleTreeWrapper::new(jmt);
    wrapper.insert(&b"a".to_vec(), b"1".to_vec()).unwrap();
    wrapper.insert(&b"b".to_vec(), b"2".to_vec()).unwrap();
    wrapper.insert(&b"a".to_vec(), b"3".to_vec()).unwrap();
    wrapper.remove(&b"a".to_vec()).unwrap();

    for (_key, entries) in wrapper.value_history() {
        for w in entries.windows(2) {
            assert!(w[0].0 < w[1].0);
        }
    }
}

#[test]
fn iteration_is_sorted_by_key_hash_and_skips_tombstones() {
    let db = DbAdapter::new();
    let jmt = JellyfishMerkleTree::new(db);
    let mut wrapper = JellyfishMerkleTreeWrapper::new(jmt);
    wrapper.insert(&b"one".to_vec(), b"1".to_vec()).unwrap();
    wrapper.insert(&b"two".to_vec(), b"2".to_vec()).unwrap();
    wrapper.insert(&b"three".to_vec(), b"3".to_vec()).unwrap();
    wrapper.remove(&b"two".to_vec()).unwrap();

    let version = wrapper.version();
    let zero = KeyHash::from_bytes(vec![0u8; 32]);
    let entries = wrapper.iter(version, &zero).unwrap();
    assert_eq!(entries.len(), 2);
    assert!(entries[0].0.as_bytes() < entries[1].0.as_bytes());
    let values: Vec<Vec<u8>> = entries.iter().map(|e| e.1.clone()).collect();
    assert!(values.contains(&b"1".to_vec()));
    assert!(values.contains(&b"3".to_vec()));
    assert!(!values.contains(&b"2".to_vec()));

    // starting above every key hash yields nothing
    let top = KeyHash::from_bytes(vec![0xffu8; 32]);
    assert_eq!(wrapper.iter(version, &top).unwrap().len(), 0);
}

#[test]
fn rightmost_leaf_is_the_greatest_key_hash() {
    let empty_db = DbAdapter::new();
    assert!(empty_db.get_rightmost_leaf().unwrap().is_none());

    let jmt = JellyfishMerkleTree::new(DbAdapter::new());
    let mut wrapper = JellyfishMerkleTreeWrapper::new(jmt);
    let keys: [&[u8]; 3] = [b"one", b"two", b"three"];
    for key in keys {
        wrapper.insert(&key.to_vec(), key.to_vec()).unwrap();
    }

    let (leaf_key, _vh) = wrapper.inner().reader().get_rightmost_leaf().unwrap().unwrap();
    let greatest = keys
        .iter()
        .map(|k| KeyHash::with_sha256(k).as_bytes().clone())
        .max()
        .unwrap();
    assert_eq!(leaf_key.as_bytes(), &greatest);
}

#[test]
fn written_nodes_read_back_and_supersede() {
    let jmt = JellyfishMerkleTree::new(DbAdapter::new());
    let mut wrapper = JellyfishMerkleTreeWrapper::new(jmt);
    wrapper.insert(&b"a".to_vec(), b"1".to_vec()).unwrap();
    wrapper.insert(&b"b".to_vec(), b"2".to_vec()).unwrap();

    let tree = wrapper.inner();
    let reader = tree.reader();
    let all = reader.nodes().unwrap();
    assert!(!all.is_empty());
    for (nk, node) in &all {
        let got = reader.get_node_option(nk).unwrap().unwrap();
        assert_eq!(
            lr_trie::node::encode_node(&got),
            lr_trie::node::encode_node(node)
        );
    }
    // a missing node reads as nothing
    let missing = lr_trie::node::NodeKey { version: 999, nibble_path: vec![1, 2, 3] };
    assert!(reader.get_node_option(&missing).unwrap().is_none());
    // the second insert replaced the first version's root node
    assert!(!reader.stale_nodes().is_empty());
}
