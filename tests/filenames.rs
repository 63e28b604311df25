use lsmdb::filename::{parse_name, FileType};

#[test]
fn file_names() {
    assert_eq!(FileType::Log(b"db".to_vec(), 5).filename(), b"db/0000005.log".to_vec());
    assert_eq!(FileType::Table(b"db".to_vec(), 123).filename(), b"db/0000123.ldb".to_vec());
    assert_eq!(FileType::Manifest(b"db".to_vec(), 1).filename(), b"db/MANIFEST-0000001".to_vec());
    assert_eq!(FileType::Current(b"db".to_vec()).filename(), b"db/CURRENT".to_vec());
    assert_eq!(FileType::TempFileName(b"db".to_vec(), 7).filename(), b"db/CURRENT.0000007".to_vec());
    assert_eq!(FileType::Log(b"d".to_vec(), 123456789).filename(), b"d/123456789.log".to_vec());
}

#[test]
fn parse_names() {
    assert!(matches!(parse_name(b"db/0000005.log"), Some(FileType::Log(d, 5)) if d == b"db".to_vec()));
    assert!(matches!(parse_name(b"x/y/0000012.ldb"), Some(FileType::Table(d, 12)) if d == b"x/y".to_vec()));
    assert!(matches!(parse_name(b"db/MANIFEST-0000003"), Some(FileType::Manifest(_, 3))));
    assert!(matches!(parse_name(b"db/CURRENT"), Some(FileType::Current(_))));
    assert!(matches!(parse_name(b"db/CURRENT.0000009"), Some(FileType::TempFileName(_, 9))));
    assert!(parse_name(b"db/LOCK").is_none());
    assert!(parse_name(b"db/05.log").is_none());
    assert!(parse_name(b"0000005.log").is_none());
    assert!(parse_name(b"db/00000x5.log").is_none());
    assert!(FileType::Log(b"db".to_vec(), 1).is_logfile());
    assert!(!FileType::Table(b"db".to_vec(), 1).is_logfile());
}
