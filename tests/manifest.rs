use lsmdb::ikey::InternalKey;
use lsmdb::metadata::{FileMetaData, FileMetaDataBuilder, MissingField};
use lsmdb::error::ErrorKind;
use lsmdb::log_record::{LogReader, LogWriter};
use lsmdb::version_edit::VersionEdit;

fn meta(num: u64, size: u64, small: &[u8], s1: u64, large: &[u8], s2: u64, level: u64) -> FileMetaData {
    FileMetaData::new(
        num,
        size,
        InternalKey::new(small, s1),
        InternalKey::new(large, s2),
        level,
    )
}

#[test]
fn version_edit_encode_and_decode() {
    let nfile = meta(1, 2, "3".as_bytes(), 4, "5".as_bytes(), 6, 7);
    let dfile = meta(10, 11, "12".as_bytes(), 13, "14".as_bytes(), 15, 16);

    let ve = VersionEdit {
        files: vec![nfile],
        deleted_files: vec![dfile],
        next_file_number: 10,
        log_number: 11,
        last_sequence: 12,
        prev_log_number: 13,
    };

    let mut lw = LogWriter::new();
    lw.add_record(&ve.encode());
    let mut reader = LogReader::new(lw.into_inner());
    let mut ve2 = VersionEdit::new(0);
    ve2.decode_from(&reader.read_record().unwrap().unwrap()).unwrap();

    for (a, b) in [(&ve2.files[0], &ve.files[0]), (&ve2.deleted_files[0], &ve.deleted_files[0])] {
        assert_eq!(a.file_num, b.file_num);
        assert_eq!(a.file_size, b.file_size);
        assert_eq!(a.level, b.level);
        assert_eq!(a.smallest.inner(), b.smallest.inner());
        assert_eq!(a.largest.inner(), b.largest.inner());
    }
    assert_eq!(ve2.next_file_number, ve.next_file_number);
    assert_eq!(ve2.log_number, ve.log_number);
    assert_eq!(ve2.last_sequence, ve.last_sequence);
    assert_eq!(ve2.prev_log_number, ve.prev_log_number);
}

#[test]
fn version_edit_tags() {
    let ve = VersionEdit::new(2);
    assert_eq!(ve.encode(), vec![3, 2, 0, 0, 0, 0, 0, 0, 0]);
    let mut ve2 = VersionEdit::new(0);
    assert!(ve2.decode_from(&[8, 9, 0, 0, 0, 0, 0, 0, 0]).is_ok());
    assert_eq!(ve2.prev_log_number, 9);
    let mut ve3 = VersionEdit::new(0);
    assert!(matches!(ve3.decode_from(&[9, 0]), Err(ErrorKind::Corruption)));
    let mut ve4 = VersionEdit::new(0);
    assert!(matches!(ve4.decode_from(&[2, 1, 0]), Err(ErrorKind::Corruption)));
    let mut ve5 = VersionEdit::new(0);
    assert!(matches!(ve5.decode_from(&[1]), Err(ErrorKind::Corruption)));
}

#[test]
fn file_metadata_builder() {
    let mut b = FileMetaDataBuilder::new();
    b.file_num(4);
    b.file_size(100);
    b.smallest(InternalKey::new(b"a", 1));
    assert!(matches!(FileMetaDataBuilder::new().build(), Err(MissingField::FileNum)));
    let mut partial = FileMetaDataBuilder::new();
    partial.file_num(1);
    partial.file_size(2);
    assert!(matches!(partial.build(), Err(MissingField::Largest)));
    b.largest(InternalKey::new(b"z", 2));
    let m = b.build().unwrap();
    assert_eq!(m.file_num, 4);
    assert_eq!(m.file_size, 100);
    assert_eq!(m.level, 0);
    assert_eq!(m.smallest().user_key(), b"a".to_vec());
    assert_eq!(m.largest().user_key(), b"z".to_vec());
}
