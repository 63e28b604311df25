use lsmdb::comparator::{compare_bytes, short_successor, shortest_separator, InternalKeyComparator};
use lsmdb::ikey::{InternalKey, KeyKind};
use std::cmp::Ordering;

#[test]
fn internal_key_comparator() {
    let v0 = InternalKey::new(b"key1", 10).memtable_key();

    let v10 = InternalKey::new(b"key1", 10).memtable_key();
    let v11 = InternalKey::new(b"key1", 1).memtable_key();
    let v12 = InternalKey::new(b"key1", 11).memtable_key();
    assert_eq!(InternalKeyComparator.compare(&v0, &v10), Ordering::Equal);
    assert_eq!(InternalKeyComparator.compare(&v0, &v11), Ordering::Less);
    assert_eq!(InternalKeyComparator.compare(&v0, &v12), Ordering::Greater);

    let v20 = InternalKey::new(b"key0", 10).memtable_key();
    let v21 = InternalKey::new(b"key00", 10).memtable_key();
    let v22 = InternalKey::new(b"key10", 10).memtable_key();
    assert_eq!(InternalKeyComparator.compare(&v0, &v20), Ordering::Greater);
    // user keys compare byte-wise: "key00" sorts before "key1"
    assert_eq!(InternalKeyComparator.compare(&v0, &v21), Ordering::Greater);
    assert_eq!(InternalKeyComparator.compare(&v0, &v22), Ordering::Less);
}

#[test]
fn test_internal_key() {
    let ikey = InternalKey::new(b"hoge", 2);
    assert_eq!(ikey.user_key(), b"hoge".to_vec());
    // trailer is (sequence << 8) | kind
    assert_eq!(
        ikey.memtable_key(),
        b"\x04\0\0\0hoge\0\x02\0\0\0\0\0\0".to_vec()
    );
    assert_eq!(ikey.seq_number(), 2);
}

#[test]
fn internal_key_order_newest_first() {
    let mut keys = vec![
        InternalKey::new(b"aaa", 1).memtable_key(),
        InternalKey::new(b"aaa", 2).memtable_key(),
        InternalKey::new(b"aaa", 3).memtable_key(),
    ];
    keys.sort_by(|a, b| InternalKeyComparator.compare(a, b));
    assert_eq!(keys[0], InternalKey::new(b"aaa", 3).memtable_key());
    assert_eq!(keys[1], InternalKey::new(b"aaa", 2).memtable_key());
    assert_eq!(keys[2], InternalKey::new(b"aaa", 1).memtable_key());
}

#[test]
fn internal_key_decodes_its_encoding() {
    let k = InternalKey::new_delete_key(b"abc", 77);
    let bytes = k.inner();
    let back = InternalKey::from(&bytes).unwrap();
    assert_eq!(back.user_key(), b"abc".to_vec());
    assert_eq!(back.seq_number(), 77);
    assert_eq!(back.kind(), KeyKind::Delete);
    assert!(InternalKey::from(&bytes[..bytes.len() - 1]).is_none());
    assert_eq!(KeyKind::from(2), None);
    assert_eq!(KeyKind::from(1), Some(KeyKind::Delete));
}

#[test]
fn byte_order_is_lexicographic() {
    assert_eq!(compare_bytes(b"abc", b"abd"), Ordering::Less);
    assert_eq!(compare_bytes(b"ab", b"abc"), Ordering::Less);
    assert_eq!(compare_bytes(b"b", b"abc"), Ordering::Greater);
    assert_eq!(compare_bytes(b"", b""), Ordering::Equal);
}

#[test]
fn short_successor_and_separator() {
    let mut k = b"abc".to_vec();
    short_successor(&mut k);
    assert_eq!(k, b"b".to_vec());
    let mut k = vec![0xff, 0xff, 7];
    short_successor(&mut k);
    assert_eq!(k, vec![0xff, 0xff, 8]);
    let mut k = vec![0xff, 0xff];
    short_successor(&mut k);
    assert_eq!(k, vec![0xff, 0xff]);

    let mut k = b"abcdefgh".to_vec();
    shortest_separator(&mut k, b"abzz");
    assert_eq!(k, b"abd".to_vec());
    let mut k = b"abc".to_vec();
    shortest_separator(&mut k, b"abd");
    assert_eq!(k, b"abc".to_vec());
    let mut k = b"abc".to_vec();
    shortest_separator(&mut k, b"abcdef");
    assert_eq!(k, b"abc".to_vec());
}
