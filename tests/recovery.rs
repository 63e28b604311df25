use lsmdb::batch::WriteBatch;
use lsmdb::comparator::KeyOrder;
use lsmdb::db::{Db, RoomAction};
use lsmdb::flush::{build_level0_table, level0_edit, logs_to_replay};
use lsmdb::ikey::InternalKey;
use lsmdb::log_record::{LogReader, LogWriter};
use lsmdb::memdb::{LookupResult, MemDB};
use lsmdb::table::Table;
use lsmdb::table_cache::TableCache;
use lsmdb::version_set::VersionSet;

#[test]
fn empty_memtable_flush_is_a_no_op() {
    let mem = MemDB::new();
    assert!(matches!(build_level0_table(&mem, 7), Ok(None)));
}

#[test]
fn memtable_flush_produces_a_table() {
    let mut mem = MemDB::new();
    for i in 0..100u64 {
        mem.add(&InternalKey::new(format!("key{:02}", i).as_bytes(), i + 1), b"v");
    }
    mem.add(&InternalKey::new_delete_key(b"key50", 200), b"");
    let (bytes, meta) = build_level0_table(&mem, 9).unwrap().unwrap();
    assert_eq!(meta.file_num, 9);
    assert_eq!(meta.level, 0);
    assert_eq!(meta.file_size, bytes.len() as u64);
    assert_eq!(meta.smallest.user_key(), b"key00".to_vec());
    assert_eq!(meta.largest.user_key(), b"key99".to_vec());

    let table = Table::open_with(bytes, KeyOrder::Internal).unwrap();
    let mut cache = TableCache::new(b"db");
    cache.find_or_insert(9, meta.file_size, table);
    let mut vs = VersionSet::new();
    let mut edit = level0_edit(vec![meta], 3);
    vs.log_and_apply(&mut edit).unwrap();
    let v = vs.current();
    assert_eq!(v.probe_order(b"key17"), vec![9]);
    assert!(v.probe_order(b"zzz").is_empty());
    assert_eq!(
        v.get(b"key17", 300, &cache).unwrap(),
        Some(LookupResult::Value(b"v".to_vec()))
    );
    assert_eq!(v.get(b"key50", 300, &cache).unwrap(), Some(LookupResult::Deleted));
    assert_eq!(
        v.get(b"key50", 199, &cache).unwrap(),
        Some(LookupResult::Value(b"v".to_vec()))
    );
    assert_eq!(v.get(b"key17", 5, &cache).unwrap(), None);
    assert_eq!(v.get(b"nope", 300, &cache).unwrap(), None);
}

#[test]
fn logs_to_replay_picks_current_logs() {
    let names: Vec<Vec<u8>> = vec![
        b"db/0000009.log".to_vec(),
        b"db/0000003.log".to_vec(),
        b"db/0000007.log".to_vec(),
        b"db/0000007.ldb".to_vec(),
        b"db/CURRENT".to_vec(),
        b"db/0000012.log".to_vec(),
    ];
    assert_eq!(logs_to_replay(&names, 7), vec![7, 9, 12]);
    assert!(logs_to_replay(&names, 13).is_empty());
}

#[test]
fn replay_log_stops_at_a_bad_record() {
    let mut db = Db::new(1 << 20);
    let mut wal = LogWriter::new();
    let mut recs = Vec::new();
    for (k, v) in [(b"a", b"1"), (b"b", b"2")] {
        let mut b = WriteBatch::new();
        b.put(k, v);
        let r = db.prepare(&b).unwrap();
        wal.add_record(&r);
        db.commit(&b);
        recs.push(r);
    }
    recs.insert(1, vec![0, 1, 2]);
    let mut again = Db::new(1 << 20);
    assert_eq!(again.replay_log(&recs), 1);
    assert_eq!(again.get(b"a"), Some(b"1".to_vec()));
    assert_eq!(again.get(b"b"), None);
    assert_eq!(again.lookup(b"a"), Some(LookupResult::Value(b"1".to_vec())));
}

#[test]
fn make_room_for_write_rotates_then_waits() {
    let mut db = Db::new(40);
    assert_eq!(db.make_room_for_write(), RoomAction::Ready);
    let mut b = WriteBatch::new();
    b.put(b"some key", b"a value that is long enough");
    db.commit(&b);
    assert_eq!(db.make_room_for_write(), RoomAction::Rotated);
    db.commit(&b);
    assert_eq!(db.make_room_for_write(), RoomAction::WaitForFlush);
    let mem = db.take_immutable().unwrap();
    assert!(matches!(build_level0_table(&mem, 4), Ok(Some(_))));
    assert_eq!(db.make_room_for_write(), RoomAction::Rotated);
}

#[test]
fn recovery_through_a_level0_table() {
    // write, then "crash": only the log survives
    let mut db = Db::new(1 << 20);
    let mut wal = LogWriter::new();
    let mut b = WriteBatch::new();
    b.put(b"a", b"1");
    b.put(b"b", b"2");
    b.delete(b"c");
    let rec = db.prepare(&b).unwrap();
    wal.add_record(&rec);
    db.commit(&b);
    drop(db);

    // recover: replay the log, flush what it held to a level-0 table
    let mut vs = VersionSet::new();
    let mut again = Db::new(1 << 20);
    let mut reader = LogReader::new(wal.into_inner());
    let mut recs = Vec::new();
    while let Some(r) = reader.read_record().unwrap() {
        recs.push(r);
    }
    assert_eq!(again.replay_log(&recs), 1);
    assert_eq!(again.last_sequence(), 3);
    assert!(again.rotate());
    let mem = again.take_immutable().unwrap();
    let num = vs.next_file_num();
    let (bytes, meta) = build_level0_table(&mem, num).unwrap().unwrap();
    let mut cache = TableCache::new(b"db");
    cache.find_or_insert(num, meta.file_size, Table::open_with(bytes, KeyOrder::Internal).unwrap());
    let log_number = vs.next_file_num();
    let mut edit = level0_edit(vec![meta], log_number);
    vs.set_last_sequence(again.last_sequence());
    let records = vs.log_and_apply(&mut edit).unwrap();
    assert_eq!(records.len(), 2);
    assert_eq!(vs.live_files(), vec![num]);

    let v = vs.current();
    let snap = again.last_sequence();
    assert_eq!(again.lookup(b"a"), None);
    assert_eq!(v.get(b"a", snap, &cache).unwrap(), Some(LookupResult::Value(b"1".to_vec())));
    assert_eq!(v.get(b"b", snap, &cache).unwrap(), Some(LookupResult::Value(b"2".to_vec())));
    assert_eq!(v.get(b"c", snap, &cache).unwrap(), Some(LookupResult::Deleted));
    assert_eq!(v.get(b"d", snap, &cache).unwrap(), None);
}

fn small_table(key: &[u8]) -> Table {
    let mut mem = MemDB::new();
    mem.add(&InternalKey::new(key, 1), b"v");
    let (bytes, _) = build_level0_table(&mem, 1).unwrap().unwrap();
    Table::open_with(bytes, KeyOrder::Internal).unwrap()
}

#[test]
fn table_cache_evicts_least_recently_used() {
    let mut cache = TableCache::with_capacity(b"db", 2);
    cache.find_or_insert(1, 0, small_table(b"a"));
    cache.find_or_insert(2, 0, small_table(b"b"));
    assert!(cache.touch(1));
    cache.find_or_insert(3, 0, small_table(b"c"));
    assert!(cache.find_table(1).is_some());
    assert!(cache.find_table(2).is_none());
    assert!(cache.find_table(3).is_some());
    assert!(!cache.touch(2));
}

#[test]
fn replay_continues_from_the_recovered_sequence() {
    let mut db = Db::starting_at(1 << 20, 10);
    let mut b = WriteBatch::new();
    b.put(b"k", b"v");
    let rec = db.prepare(&b).unwrap();
    assert_eq!(&rec[..8], &11u64.to_le_bytes());
    db.commit(&b);
    assert_eq!(db.last_sequence(), 11);
    // a record from before the recovered sequence is refused
    let mut stale = Db::starting_at(1 << 20, 11);
    assert!(stale.replay(&rec).is_err());
    let mut fresh = Db::starting_at(1 << 20, 10);
    assert!(fresh.replay(&rec).is_ok());
    assert_eq!(fresh.get(b"k"), Some(b"v".to_vec()));
}

#[test]
fn recovered_memtable_always_flushes() {
    let mut db = Db::new(1 << 20);
    for i in 0..50 {
        let mut b = WriteBatch::new();
        b.put(format!("key{:02}", i % 7).as_bytes(), format!("v{}", i).as_bytes());
        db.commit(&b);
    }
    assert!(db.rotate());
    let mem = db.take_immutable().unwrap();
    let (_, meta) = build_level0_table(&mem, 3).unwrap().unwrap();
    assert_eq!(meta.smallest.user_key(), b"key00".to_vec());
    assert_eq!(meta.smallest.seq_number(), 50);
    assert_eq!(meta.largest.user_key(), b"key06".to_vec());
    assert_eq!(meta.largest.seq_number(), 7);
}
