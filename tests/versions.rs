use lsmdb::error::ErrorKind;
use lsmdb::ikey::InternalKey;
use lsmdb::metadata::FileMetaData;
use lsmdb::version::{Version, VersionBuilder};
use lsmdb::version_edit::VersionEdit;
use lsmdb::version_set::{keep_file, obsolete_files, VersionSet};

fn file(num: u64, level: u64) -> FileMetaData {
    FileMetaData::new(
        num,
        0,
        InternalKey::new(b"dummy", 13),
        InternalKey::new(b"dummy", 15),
        level,
    )
}

#[test]
fn version_builder_level_0() {
    let mut version_edit = VersionEdit::new(0);
    version_edit.files.push(file(1, 0));
    version_edit.files.push(file(2, 0));
    version_edit.deleted_files.push(file(2, 0));

    let mut vb = VersionBuilder::new();
    vb.apply(&version_edit).unwrap();
    let mut base_edit = VersionEdit::new(0);
    base_edit.files.push(file(3, 0));
    let mut b0 = VersionBuilder::new();
    b0.apply(&base_edit).unwrap();
    let base = b0.save_to(&Version::new());

    let v = vb.save_to(&base);
    let nums: Vec<u64> = v.files_at(0).iter().map(|f| f.file_num).collect();
    assert_eq!(nums, vec![3, 1]);
    assert_eq!(v.file_numbers(), vec![3, 1]);
}

#[test]
fn version_builder_rejects_bad_level() {
    let mut e = VersionEdit::new(0);
    e.files.push(file(1, 12));
    let mut vb = VersionBuilder::new();
    assert!(matches!(vb.apply(&e), Err(ErrorKind::Corruption)));
}

#[test]
fn log_and_apply_then_recover() {
    let mut vs = VersionSet::new();
    let mut e1 = VersionEdit::new(0);
    e1.log_number = 5;
    e1.add_file(file(7, 0));
    e1.add_file(file(8, 1));
    let recs1 = vs.log_and_apply(&mut e1).unwrap();
    assert_eq!(recs1.len(), 2);
    vs.set_last_sequence(40);
    let mut e2 = VersionEdit::new(0);
    e2.deleted_files.push(file(7, 0));
    e2.add_file(file(9, 0));
    let recs2 = vs.log_and_apply(&mut e2).unwrap();
    assert_eq!(recs2.len(), 1);
    assert_eq!(vs.log_number, 5);
    assert_eq!(e2.log_number, 5);
    assert_eq!(e2.last_sequence, 40);
    let mut held = vs.live_files();
    held.sort();
    assert_eq!(held, vec![7, 8, 8, 9]);
    vs.release_older();
    let mut live = vs.live_files();
    live.sort();
    assert_eq!(live, vec![8, 9]);

    let mut all = recs1.clone();
    all.extend(recs2);
    let mut again = VersionSet::new();
    again.recover(&all).unwrap();
    let mut live2 = again.live_files();
    live2.sort();
    assert_eq!(live2, vec![8, 9]);
    assert_eq!(again.log_number, 5);
    assert_eq!(again.last_sequence, 40);
    assert_eq!(again.manifest_file_number, 10);
    assert_eq!(again.next_file_number, 11);

    let mut broken = all.clone();
    broken[1].push(99);
    assert!(matches!(VersionSet::new().recover(&broken), Err(ErrorKind::Corruption)));
}

#[test]
fn next_file_numbers() {
    let mut vs = VersionSet::new();
    assert_eq!(vs.next_file_num(), 2);
    assert_eq!(vs.next_file_num(), 3);
    vs.mark_file_num_used(10);
    assert_eq!(vs.next_file_num(), 11);
    vs.mark_file_num_used(5);
    assert_eq!(vs.next_file_num(), 12);
}

#[test]
fn obsolete_file_sweep() {
    let names: Vec<Vec<u8>> = vec![
        b"db/0000003.log".to_vec(),
        b"db/0000005.log".to_vec(),
        b"db/MANIFEST-0000001".to_vec(),
        b"db/MANIFEST-0000004".to_vec(),
        b"db/0000002.ldb".to_vec(),
        b"db/0000006.ldb".to_vec(),
        b"db/CURRENT".to_vec(),
        b"db/LOCK".to_vec(),
    ];
    let live = vec![6u64];
    let gone = obsolete_files(&names, 5, 4, &live);
    assert_eq!(gone, vec![0, 2, 4]);
    assert!(keep_file(b"db/0000006.ldb", 5, 4, &live));
    assert!(!keep_file(b"db/0000007.ldb", 5, 4, &live));
}

fn ranged(num: u64, level: u64, lo: &[u8], hi: &[u8]) -> FileMetaData {
    FileMetaData::new(num, 0, InternalKey::new(lo, 1), InternalKey::new(hi, 1), level)
}

#[test]
fn overlapping_inputs() {
    let mut e = VersionEdit::new(0);
    e.files.push(ranged(1, 0, b"a", b"c"));
    e.files.push(ranged(2, 0, b"b", b"f"));
    e.files.push(ranged(3, 0, b"e", b"h"));
    e.files.push(ranged(4, 0, b"x", b"z"));
    e.files.push(ranged(5, 1, b"a", b"c"));
    e.files.push(ranged(6, 1, b"d", b"f"));
    e.files.push(ranged(7, 1, b"g", b"k"));
    let mut vb = VersionBuilder::new();
    vb.apply(&e).unwrap();
    let v = vb.save_to(&Version::new());

    // level 0 widens [a, a] through the chain a-c, b-f, e-h
    let l0: Vec<u64> = v.get_overlapping_inputs(0, b"a", b"a").iter().map(|f| f.file_num).collect();
    assert_eq!(l0, vec![1, 2, 3]);
    let l1: Vec<u64> = v.get_overlapping_inputs(1, b"e", b"g").iter().map(|f| f.file_num).collect();
    assert_eq!(l1, vec![6, 7]);
    assert!(v.get_overlapping_inputs(12, b"a", b"z").is_empty());
}
