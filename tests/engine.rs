use lsmdb::batch::WriteBatch;
use lsmdb::db::Db;
use lsmdb::error::ErrorKind;
use lsmdb::log_record::{LogReader, LogWriter};

fn put(db: &mut Db, wal: &mut LogWriter, k: &[u8], v: &[u8]) {
    let mut b = WriteBatch::new();
    b.put(k, v);
    let rec = db.prepare(&b).unwrap();
    wal.add_record(&rec);
    db.commit(&b);
}

fn delete(db: &mut Db, wal: &mut LogWriter, k: &[u8]) {
    let mut b = WriteBatch::new();
    b.delete(k);
    let rec = db.prepare(&b).unwrap();
    wal.add_record(&rec);
    db.commit(&b);
}

fn reopen(wal: &LogWriter) -> Db {
    let mut db = Db::new(4 * 1024 * 1024);
    let mut reader = LogReader::new(wal.contents().clone());
    while let Some(rec) = reader.read_record().unwrap() {
        db.replay(&rec).unwrap();
    }
    db
}

#[test]
fn point_get_of_a_value() {
    let mut db = Db::new(4 * 1024 * 1024);
    let mut wal = LogWriter::new();
    put(&mut db, &mut wal, b"k", b"v");
    assert_eq!(db.get(b"k"), Some(b"v".to_vec()));
    assert_eq!(db.get(b"missing"), None);
}

#[test]
fn tombstone_survives_reopen() {
    let mut db = Db::new(4 * 1024 * 1024);
    let mut wal = LogWriter::new();
    put(&mut db, &mut wal, b"k", b"v1");
    delete(&mut db, &mut wal, b"k");
    assert_eq!(db.get(b"k"), None);
    let again = reopen(&wal);
    assert_eq!(again.get(b"k"), None);
    assert_eq!(again.get_at(b"k", 1), Some(b"v1".to_vec()));
}

#[test]
fn recovery_replays_the_log() {
    let mut db = Db::new(4 * 1024 * 1024);
    let mut wal = LogWriter::new();
    put(&mut db, &mut wal, b"a", b"1");
    put(&mut db, &mut wal, b"b", b"2");
    drop(db);
    let again = reopen(&wal);
    assert_eq!(again.get(b"a"), Some(b"1".to_vec()));
    assert_eq!(again.get(b"b"), Some(b"2".to_vec()));
    assert_eq!(again.last_sequence(), 2);
}

#[test]
fn batch_takes_consecutive_sequences() {
    let mut db = Db::new(4 * 1024 * 1024);
    let mut b = WriteBatch::new();
    b.put(b"x", b"1");
    b.put(b"x", b"2");
    b.delete(b"y");
    let rec = db.prepare(&b).unwrap();
    assert_eq!(&rec[..12], &[1, 0, 0, 0, 0, 0, 0, 0, 3, 0, 0, 0]);
    db.commit(&b);
    assert_eq!(db.last_sequence(), 3);
    assert_eq!(db.get(b"x"), Some(b"2".to_vec()));
    assert_eq!(db.get_at(b"x", 1), Some(b"1".to_vec()));
    let (seq, back) = WriteBatch::decode(&rec).unwrap();
    assert_eq!(seq, 1);
    assert_eq!(back.count(), 3);
}

#[test]
fn empty_batch_is_a_no_op() {
    let mut db = Db::new(4 * 1024 * 1024);
    let b = WriteBatch::new();
    let rec = db.prepare(&b).unwrap();
    db.commit(&b);
    assert_eq!(db.last_sequence(), 0);
    let mut again = Db::new(4 * 1024 * 1024);
    again.replay(&rec).unwrap();
    assert_eq!(again.last_sequence(), 0);
}

#[test]
fn empty_key_is_rejected() {
    let db = Db::new(4 * 1024 * 1024);
    let mut b = WriteBatch::new();
    b.put(b"", b"v");
    assert!(matches!(db.prepare(&b), Err(ErrorKind::InvalidArgument)));
    let mut d = Db::new(16);
    assert!(matches!(d.replay(&[1, 2, 3]), Err(ErrorKind::Corruption)));
}

#[test]
fn rotation_moves_the_memtable_aside() {
    let mut db = Db::new(64);
    let mut wal = LogWriter::new();
    for i in 0..10 {
        put(&mut db, &mut wal, format!("key{:02}", i).as_bytes(), b"v");
    }
    assert!(db.needs_rotation());
    assert!(db.rotate());
    assert!(!db.rotate());
    put(&mut db, &mut wal, b"key00", b"new");
    assert_eq!(db.get(b"key00"), Some(b"new".to_vec()));
    assert_eq!(db.get(b"key05"), Some(b"v".to_vec()));
    assert!(db.immutable().is_some());
    let imm = db.take_immutable().unwrap();
    assert!(!imm.empty());
    assert_eq!(db.get(b"key05"), None);
    assert!(db.rotate());
}
