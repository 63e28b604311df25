use lsmdb::ikey::InternalKey;
use lsmdb::memdb::{LookupResult, MemDB};

#[test]
fn memdb() {
    let mut db = MemDB::new();

    let hash: Vec<(&str, Vec<u8>)> = vec![
        ("key", b"value".to_vec()),
        ("key1", b"value1".to_vec()),
        ("key2", b"value2".to_vec()),
        ("key3", b"value3".to_vec()),
        ("key4", b"value4".to_vec()),
        ("key5", b"value5".to_vec()),
        ("key6", b"value___6".to_vec()),
        ("key77", b"value   7".to_vec()),
    ];

    for v in hash {
        let key_bytes = v.0.as_bytes();
        let k = InternalKey::new(key_bytes, 1);
        db.add(&k, &v.1);
        // a snapshot taken before the write does not see it
        assert_eq!(db.get(&InternalKey::new(key_bytes, 0)), None);
        assert_eq!(
            db.get(&InternalKey::new(key_bytes, 1)).unwrap(),
            LookupResult::Value(v.1)
        );
    }

    assert_eq!(db.get(&InternalKey::new(b"notfound", 0)), None);
}

#[test]
fn memdb_seqeunce() {
    let mut db = MemDB::new();
    let key = "key1".as_bytes();
    let value = b"value1".to_vec();

    db.add(&InternalKey::new(key, 10), &value);
    assert_eq!(db.get(&InternalKey::new(key, 9)), None);
    assert_eq!(
        db.get(&InternalKey::new(key, 10)),
        Some(LookupResult::Value(value.clone()))
    );
    assert_eq!(
        db.get(&InternalKey::new(key, 11)),
        Some(LookupResult::Value(value))
    );
}

#[test]
fn memdb_iter() {
    let mut db = MemDB::new();

    let hash: Vec<(InternalKey, Vec<u8>)> = vec![
        (InternalKey::new("key".as_bytes(), 1), b"value".to_vec()),
        (InternalKey::new("key1".as_bytes(), 1), b"value1".to_vec()),
        (InternalKey::new("key2".as_bytes(), 1), b"value2".to_vec()),
        (InternalKey::new("key3".as_bytes(), 1), b"value3".to_vec()),
        (InternalKey::new("key4".as_bytes(), 1), b"value4".to_vec()),
        (InternalKey::new("key5".as_bytes(), 1), b"value5".to_vec()),
        (InternalKey::new("key6".as_bytes(), 1), b"value___6".to_vec()),
        (InternalKey::new("key77".as_bytes(), 1), b"value   7".to_vec()),
    ];
    for v in &hash {
        db.add(&v.0, &v.1);
    }

    let mut it = db.iter();
    for v in hash.into_iter() {
        assert_eq!(it.next().unwrap(), (v.0.inner(), v.1));
    }
}

#[test]
fn memdb_iter_is_desc_order() {
    let mut db = MemDB::new();
    let hash: Vec<(InternalKey, Vec<u8>)> = vec![
        (InternalKey::new("key01".as_bytes(), 1), b"v".to_vec()),
        (InternalKey::new("key00".as_bytes(), 2), b"v".to_vec()),
        (InternalKey::new("key00".as_bytes(), 1), b"v".to_vec()),
    ];

    for v in &hash {
        db.add(&v.0, &v.1);
    }

    // sequence numbers descend within a user key: the newest comes first
    let mut it = db.iter();
    assert_eq!(it.next().unwrap().0, hash[1].0.inner());
    assert_eq!(it.next().unwrap().0, hash[2].0.inner());
    assert_eq!(it.next().unwrap().0, hash[0].0.inner());
}

#[test]
fn tombstone_hides_earlier_value() {
    let mut db = MemDB::new();
    db.add(&InternalKey::new(b"k", 1), b"v1");
    db.add(&InternalKey::new_delete_key(b"k", 2), b"");
    assert_eq!(
        db.get(&InternalKey::new_delete_key(b"k", 1)),
        Some(LookupResult::Value(b"v1".to_vec()))
    );
    assert_eq!(
        db.get(&InternalKey::new_delete_key(b"k", 2)),
        Some(LookupResult::Deleted)
    );
    assert_eq!(
        db.get(&InternalKey::new_delete_key(b"k", 9)),
        Some(LookupResult::Deleted)
    );
}

#[test]
fn later_value_wins_from_its_snapshot_on() {
    let mut db = MemDB::new();
    db.add(&InternalKey::new(b"k", 3), b"v1");
    db.add(&InternalKey::new(b"k", 7), b"v2");
    assert_eq!(
        db.get(&InternalKey::new_delete_key(b"k", 5)),
        Some(LookupResult::Value(b"v1".to_vec()))
    );
    assert_eq!(
        db.get(&InternalKey::new_delete_key(b"k", 7)),
        Some(LookupResult::Value(b"v2".to_vec()))
    );
    assert_eq!(db.get(&InternalKey::new_delete_key(b"k", 2)), None);
    assert!(db.approximately_size() > 0);
    assert!(!db.empty());
    assert!(MemDB::new().empty());
}
