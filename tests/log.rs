use lsmdb::error::ErrorKind;
use lsmdb::log_record::LogReader;
use lsmdb::log_record::LogWriter;

#[test]
fn log_reader_full_record() {
    let b = b"key".to_vec();
    let mut lw = LogWriter::new();
    lw.add_record(&b);

    let mut reader = LogReader::new(lw.into_inner());
    assert_eq!(reader.read_record().unwrap(), Some(b));
    assert_eq!(reader.read_record().unwrap(), None);
}

#[test]
fn log_reader_across() {
    let bs: Vec<Vec<u8>> = (1..1000).map(|v| format!("key{:?}", v).into_bytes()).collect();
    let mut lw = LogWriter::new();
    for b in &bs {
        lw.add_record(b);
    }

    let mut reader = LogReader::new(lw.into_inner());
    for b in &bs {
        assert_eq!(reader.read_record().unwrap(), Some(b.clone()));
    }
    assert_eq!(reader.read_record().unwrap(), None);
}

#[test]
fn log_fragments_long_records() {
    let big: Vec<u8> = (0..100_000u32).map(|i| (i % 251) as u8).collect();
    let small = b"tail".to_vec();
    let mut lw = LogWriter::new();
    lw.add_record(&small);
    lw.add_record(&big);
    lw.add_record(&[]);
    lw.add_record(&small);
    let bytes = lw.into_inner();
    assert!(bytes.len() > 100_000);
    let mut reader = LogReader::new(bytes.clone());
    assert_eq!(reader.read_record().unwrap(), Some(small.clone()));
    assert_eq!(reader.read_record().unwrap(), Some(big.clone()));
    assert_eq!(reader.read_record().unwrap(), Some(vec![]));
    assert_eq!(reader.read_record().unwrap(), Some(small.clone()));
    assert_eq!(reader.read_record().unwrap(), None);

    // a log cut inside a record yields nothing further
    let mut cut = LogReader::new(bytes[..50_000].to_vec());
    assert_eq!(cut.read_record().unwrap(), Some(small.clone()));
    assert_eq!(cut.read_record().unwrap(), None);
}

#[test]
fn log_block_padding() {
    // leave 5 bytes in the first block: they are zero-filled and skipped
    let first = vec![7u8; 32768 - 7 - 5];
    let mut lw = LogWriter::new();
    lw.add_record(&first);
    lw.add_record(b"next");
    let bytes = lw.into_inner();
    assert_eq!(&bytes[32763..32768], &[0, 0, 0, 0, 0]);
    let mut reader = LogReader::new(bytes);
    assert_eq!(reader.read_record().unwrap(), Some(first));
    assert_eq!(reader.read_record().unwrap(), Some(b"next".to_vec()));
}

#[test]
fn log_checksum_mismatch_is_reported() {
    let mut lw = LogWriter::new();
    lw.add_record(b"payload");
    let mut bytes = lw.into_inner();
    bytes[8] ^= 1;
    let mut reader = LogReader::new(bytes);
    assert!(matches!(reader.read_record(), Err(ErrorKind::Corruption)));
}
