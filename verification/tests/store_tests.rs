//! The in-memory backend: column families, prefixed keys, and the
//! partition of the storage map.

use lr_trie::column_family::ColumnFamily;
use lr_trie::pebble_db::PebbleDB;
use std::hash::Hasher;

fn __test_hash_helper() -> Vec<u8> {
    let mut hasher = fnv::FnvHasher::default();
    hasher.write("default".as_bytes());
    hasher.finish().to_be_bytes().to_vec()
}

#[test]
fn test_cf_key_output_is_verifiable() {
    let cf = ColumnFamily::default();
    assert_eq!(cf.cf_key(), __test_hash_helper());
}

#[test]
fn test_insert() {
    let mut db = PebbleDB::default();

    db.insert(
        (
            bincode::serialize("node_id1").unwrap(),
            bincode::serialize("claim1").unwrap(),
        ),
        &ColumnFamily::from_name("claims"),
    )
    .unwrap();
    assert_eq!(db.cfs_len(), 1);
    assert!(db.cf_exists(&ColumnFamily::from_name("claims")));

    db.insert(
        (
            bincode::serialize("node_id2").unwrap(),
            bincode::serialize("claim2").unwrap(),
        ),
        &ColumnFamily::from_name("claims"),
    )
    .unwrap();
    assert_eq!(db.cf_len(&ColumnFamily::from_name("claims")).unwrap(), 2);

    db.insert(
        (
            bincode::serialize("address1").unwrap(),
            bincode::serialize("account1").unwrap(),
        ),
        &ColumnFamily::from_name("state"),
    )
    .unwrap();
    assert_eq!(db.cfs_len(), 2);
    assert_eq!(
        db.cf_len(&ColumnFamily::from_name("claims")).unwrap()
            + db.cf_len(&ColumnFamily::from_name("state")).unwrap(),
        db.len()
    );
}

#[test]
fn cf_insert_into_one_family_leaves_default_untouched() {
    let mut db = PebbleDB::default();
    db.insert((b"key".to_vec(), b"val".to_vec()), &ColumnFamily::from_name("cf"))
        .unwrap();
    assert_eq!(db.cf_len(&ColumnFamily::from_name("cf")), Some(1));
    assert_eq!(db.cf_len(&ColumnFamily::default()), None);
    assert!(!db.cf_exists(&ColumnFamily::default()));
}

#[test]
fn cf_key_is_eight_bytes_and_stable() {
    let a = ColumnFamily::from_name("claims").cf_key();
    let b = ColumnFamily::from_name("claims").cf_key();
    let c = ColumnFamily::from_name("state").cf_key();
    assert_eq!(a.len(), 8);
    assert_eq!(a, b);
    assert_ne!(a, c);
}

#[test]
fn cf_from_invalid_utf8_falls_back_to_default() {
    let cf = ColumnFamily::from_utf8_bytes(vec![0xff, 0xfe, 0xfd]);
    assert_eq!(cf.name_bytes(), "default".as_bytes());
    let ok = ColumnFamily::from_utf8_bytes(b"claims".to_vec());
    assert_eq!(ok.name_bytes(), b"claims");
}

#[test]
fn duplicate_key_updates_value_in_place() {
    let mut db = PebbleDB::default();
    let cf = ColumnFamily::from_name("claims");
    db.insert((b"k".to_vec(), b"v1".to_vec()), &cf).unwrap();
    db.insert((b"k".to_vec(), b"v2".to_vec()), &cf).unwrap();
    assert_eq!(db.cf_len(&cf), Some(1));
    assert_eq!(db.len(), 1);
    let mut pk = cf.cf_key();
    pk.extend_from_slice(b"k");
    assert_eq!(db.get(&pk), Some(&b"v2".to_vec()));
}

#[test]
fn new_cf_is_idempotent() {
    let mut db = PebbleDB::default();
    let cf = ColumnFamily::from_name("claims");
    db.new_cf(&cf).unwrap();
    db.new_cf(&cf).unwrap();
    assert_eq!(db.cfs_len(), 1);
    assert_eq!(db.cf_len(&cf), Some(0));
}

#[test]
fn entries_reflect_insertion_order() {
    let mut db = PebbleDB::default();
    let cf = ColumnFamily::from_name("claims");
    db.insert((b"a".to_vec(), b"1".to_vec()), &cf).unwrap();
    db.insert((b"b".to_vec(), b"2".to_vec()), &cf).unwrap();
    let entries = db.entries();
    assert_eq!(entries.len(), 2);
    assert_eq!(&entries[0].1, b"1");
    assert_eq!(&entries[1].1, b"2");
}
