use lsmdb::block::Block;
use lsmdb::block_builder::BlockBuilder;
use lsmdb::error::ErrorKind;
use lsmdb::format::BlockHandle;

fn create_seed_helper(size: usize) -> Vec<(Vec<u8>, Vec<u8>)> {
    (0..size)
        .map(|v| {
            (
                format!("key{:02?}", v).into_bytes(),
                format!("value{:02?}", v).into_bytes(),
            )
        })
        .collect()
}

#[test]
fn test_block_iterator() {
    let mut bb = BlockBuilder::new();
    let dic = create_seed_helper(30);

    for v in &dic {
        bb.add(&v.0, &v.1);
    }

    let mut block = Block::new(bb.build()).unwrap().iter();
    for d in &dic {
        let b = block.next().unwrap();
        assert_eq!(b.0, d.0);
        assert_eq!(b.1, d.1);
    }
    assert_eq!(block.next(), None);
}

#[test]
fn test_block_iterator_seek() {
    let mut bb = BlockBuilder::new();
    let dic = create_seed_helper(5);

    for v in &dic {
        bb.add(&v.0, &v.1);
    }

    let mut block = Block::new(bb.build()).unwrap().iter();
    for d in &dic {
        assert_eq!(block.seek(&d.0).as_ref(), Some(&d.1));
    }

    // two restart points
    let mut bb = BlockBuilder::new();
    let dic = create_seed_helper(30);

    for v in &dic {
        bb.add(&v.0, &v.1);
    }

    let mut block = Block::new(bb.build()).unwrap().iter();
    for d in &dic {
        assert_eq!(block.seek(&d.0).as_ref(), Some(&d.1));
    }
}

#[test]
fn test_block_builder() {
    let mut bb = BlockBuilder::new();

    for i in 0..2 {
        bb.add(format!("key{:?}", i).as_bytes(), "value".as_bytes());
    }

    let v = bb.build();
    assert_eq!(
        v,
        b"\0\0\0\0\x04\0\0\0\x05\0\0\0key0value\x03\0\0\0\x01\0\0\0\x05\0\0\01value\0\0\0\0\x01\0\0\0"
            .to_vec()
    );
}

#[test]
fn test_block_builder2() {
    let mut bb = BlockBuilder::new();

    for i in 0..16 {
        bb.add(format!("key{:?}", i).as_bytes(), "v".as_bytes());
    }

    let s = bb.estimated_current_size() - (4 * (1 + bb.restart_points()));
    bb.add("key16".as_bytes(), "v".as_bytes());
    bb.add("key17".as_bytes(), "v".as_bytes());

    let result = bb.build();
    let (_, r2) = result.split_at(s);

    assert_eq!(r2.to_vec(), b"\0\0\0\0\x05\0\0\0\x01\0\0\0key16v\x04\0\0\0\x01\0\0\0\x01\0\0\07v\0\0\0\0\xe4\0\0\0\x02\0\0\0".to_vec());
}

#[test]
fn block_seek_on_prefix_compressed_block() {
    let mut bb = BlockBuilder::new();
    for i in 0..30 {
        bb.add(
            format!("key{:02}", i).as_bytes(),
            format!("val{:02}", i).as_bytes(),
        );
    }
    let block = Block::new(bb.build()).unwrap();
    assert_eq!(block.restart_count(), 2);
    assert_eq!(block.seek(b"key17"), Some(b"val17".to_vec()));
    assert_eq!(block.seek(b"key99"), None);
    assert_eq!(block.seek(b"key1"), Some(b"val10".to_vec()));
}

#[test]
fn single_entry_block_has_one_restart() {
    let mut bb = BlockBuilder::new();
    bb.add(b"a", b"1");
    let bytes = bb.build();
    assert_eq!(&bytes[bytes.len() - 8..], &[0, 0, 0, 0, 1, 0, 0, 0]);
    let block = Block::new(bytes).unwrap();
    assert_eq!(block.restart_count(), 1);
    assert_eq!(block.seek(b"a"), Some(b"1".to_vec()));
}

#[test]
fn empty_block_builder() {
    let mut bb = BlockBuilder::new();
    assert!(bb.empty());
    let bytes = bb.build();
    assert_eq!(bytes, vec![0, 0, 0, 0, 1, 0, 0, 0]);
    let mut it = Block::new(bytes).unwrap().iter();
    assert_eq!(it.next(), None);
}

#[test]
fn corrupt_block_is_rejected() {
    assert!(matches!(Block::new(vec![1, 2]), Err(ErrorKind::Corruption)));
    assert!(matches!(
        Block::new(vec![9, 0, 0, 0, 1, 0, 0, 0, 9, 0, 0, 0]),
        Err(ErrorKind::Corruption)
    ));
}

#[test]
fn block_format_block_handle_test() {
    let mut bh = BlockHandle::new();
    bh.set_size(10);
    bh.set_offset(10);
    let v: Vec<u8> = vec![10, 0, 0, 0, 0, 0, 0, 0, 10, 0, 0, 0, 0, 0, 0, 0];
    assert_eq!(bh.encode(), v);

    let bh = BlockHandle::from(1111111111, 200000000000);
    let bh2 = BlockHandle::decode_from(&bh.encode()).unwrap();

    assert_eq!(bh2.size, Some(1111111111));
    assert_eq!(bh2.offset, Some(200000000000));
}

#[test]
fn format_block_handle_test() {
    let mut bh = BlockHandle::new();
    bh.set_size(10);
    bh.set_offset(10);
    let v: Vec<u8> = vec![10, 0, 0, 0, 0, 0, 0, 0, 10, 0, 0, 0, 0, 0, 0, 0];
    assert_eq!(bh.encode(), v);

    let bh = BlockHandle::from(1111111111, 200000000000);
    let bh2 = BlockHandle::decode_from(&bh.encode()).unwrap();

    assert_eq!(bh2.size, Some(1111111111));
    assert_eq!(bh2.offset, Some(200000000000));
}

#[test]
fn block_handle_encodes_offset_first() {
    let bh = BlockHandle::from(2, 1);
    assert_eq!(bh.encode(), vec![1, 0, 0, 0, 0, 0, 0, 0, 2, 0, 0, 0, 0, 0, 0, 0]);
    assert!(BlockHandle::decode_from(&[0u8; 15]).is_none());
}
