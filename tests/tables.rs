use lsmdb::error::ErrorKind;
use lsmdb::format::Footer;
use lsmdb::table::Table;
use lsmdb::table_builder::TableBuilder;
use lsmdb::table_cache::TableCache;

fn built_table_value() -> (Vec<u8>, Vec<(Vec<u8>, Vec<u8>)>) {
    let dic: Vec<(Vec<u8>, Vec<u8>)> = (0..30)
        .map(|v| {
            (
                format!("key{:02?}", v).into_bytes(),
                format!("value{:02?}", v).into_bytes(),
            )
        })
        .collect();

    let mut b = TableBuilder::new();
    for (k, v) in &dic {
        b.add(k, v).unwrap();
    }
    (b.build(), dic)
}

#[test]
fn test_table() {
    let (value, dic) = built_table_value();
    let t = Table::open(value).unwrap();

    for (k, v) in dic {
        assert_eq!(Some(v), t.get(&k).unwrap())
    }
}

#[test]
fn test_table_iter() {
    let (value, dic) = built_table_value();
    let mut titer = Table::open(value).unwrap().iter().unwrap();

    for exp in dic {
        let t = titer.next().unwrap();
        assert_eq!(exp, t);
    }
    assert_eq!(titer.next(), None);
}

#[test]
fn table_with_many_blocks() {
    let mut b = TableBuilder::new();
    let mut dic = vec![];
    for i in 0..2000u32 {
        let k = format!("key{:06}", i).into_bytes();
        let v = format!("value-{}", i * 7).into_bytes();
        b.add(&k, &v).unwrap();
        dic.push((k, v));
    }
    let bytes = b.build();
    let t = Table::open(bytes).unwrap();
    for (k, v) in &dic {
        assert_eq!(t.get(k).unwrap(), Some(v.clone()));
    }
    assert_eq!(t.get(b"key000006").unwrap(), Some(b"value-42".to_vec()));
    assert_eq!(t.get(b"zzz").unwrap(), None);
    let mut it = t.iter().unwrap();
    for e in &dic {
        assert_eq!(it.next().as_ref(), Some(e));
    }
}

#[test]
fn table_rejects_unsorted_keys() {
    let mut b = TableBuilder::new();
    b.add(b"b", b"1").unwrap();
    assert!(matches!(b.add(b"a", b"2"), Err(ErrorKind::InvalidArgument)));
    assert!(matches!(b.add(b"b", b"2"), Err(ErrorKind::InvalidArgument)));
    assert!(b.add(b"c", b"3").is_ok());
}

#[test]
fn table_detects_corruption() {
    let (mut value, _) = built_table_value();
    assert!(matches!(Table::open(value[..10].to_vec()), Err(ErrorKind::Corruption)));
    let n = value.len();
    value[n - 1] ^= 0xff;
    assert!(matches!(Table::open(value.clone()), Err(ErrorKind::Corruption)));
    value[n - 1] ^= 0xff;
    value[3] ^= 0x01;
    let t = Table::open(value).unwrap();
    assert!(matches!(t.get(b"key00"), Err(ErrorKind::Corruption)));
}

#[test]
fn footer_round_trip() {
    let (value, _) = built_table_value();
    let f = Footer::decode(&value[value.len() - 40..]).unwrap();
    let again = f.encode();
    assert_eq!(again, value[value.len() - 40..].to_vec());
    assert_eq!(&again[32..], &0xdb4775248b80fb57u64.to_le_bytes());
}

#[test]
fn empty_table_has_no_entries() {
    let b = TableBuilder::new();
    let t = Table::open(b.build()).unwrap();
    assert_eq!(t.get(b"a").unwrap(), None);
    assert_eq!(t.iter().unwrap().next(), None);
}

#[test]
fn table_cache_keeps_tables_by_number() {
    let (value, dic) = built_table_value();
    let mut cache = TableCache::new(b"db");
    assert_eq!(cache.file_name(12), b"db/0000012.ldb".to_vec());
    assert!(cache.find_table(12).is_none());
    assert!(matches!(cache.get(b"key00", 12), Err(ErrorKind::InvalidArgument)));
    cache.find_or_insert(12, value.len() as u64, Table::open(value).unwrap());
    assert!(cache.find_table(12).is_some());
    assert_eq!(cache.get(&dic[3].0, 12).unwrap(), Some(dic[3].1.clone()));
}

#[test]
fn default_configuration() {
    let c = lsmdb::configure::Configure::default();
    assert_eq!(c.write_buffer_size, 4 * 1024 * 1024);
}
