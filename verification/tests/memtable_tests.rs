use mirdb::memtable::Memtable;
use mirdb::options::Options;

#[test]
fn test_get() {
    let mut table = Memtable::new(6 * 20, 10);
    table.insert(vec![1], Some(vec![2]));
    table.insert(vec![1], Some(vec![3]));
    table.insert(vec![1], Some(vec![4]));
    assert!(!table.is_full());
    table.insert(vec![1], Some(vec![5]));
    table.insert(vec![1], Some(vec![6]));
    table.insert(vec![1], Some(vec![7]));
    table.insert(vec![2], Some(vec![2]));
    assert!(!table.is_full());
    assert_eq!(table.get(&vec![1]), Some(&Some(vec![7])));
    assert_eq!(table.get(&vec![2]), Some(&Some(vec![2])));
    assert_eq!(table.get(&vec![3]), None);
    assert_eq!(table.length(), 2);
}

#[test]
fn memtable_charge_and_fullness() {
    let mut table = Memtable::new(40, 12);
    assert_eq!(table.size(), 0);
    assert_eq!(table.insert(b"ab".to_vec(), Some(b"xyz".to_vec())), None);
    assert_eq!(table.size(), 2 + 3 + 16);
    assert!(!table.is_full());
    assert_eq!(table.insert(b"ab".to_vec(), None), Some(Some(b"xyz".to_vec())));
    assert_eq!(table.size(), 2 + 16);
    assert_eq!(table.insert(b"c".to_vec(), Some(vec![0; 5])), None);
    assert_eq!(table.size(), 18 + 1 + 5 + 16);
    assert!(table.is_full());
    assert_eq!(table.get(&b"ab".to_vec()), Some(&None));
    table.clear();
    assert_eq!(table.size(), 0);
    assert_eq!(table.length(), 0);
    assert_eq!(table.get(&b"ab".to_vec()), None);
    assert!(!table.is_full());
}

#[test]
fn memtable_keeps_keys_in_order_whatever_the_height() {
    for height in [0usize, 1, 2, 12] {
        let mut table = Memtable::new(1 << 20, height);
        for i in (0..200u32).rev() {
            table.insert(format!("k{:04}", (i * 7919) % 200).into_bytes(), Some(i.to_le_bytes().to_vec()));
        }
        let es = table.iter();
        assert_eq!(es.len(), 200);
        for (i, (k, _)) in es.iter().enumerate() {
            assert_eq!(k, &format!("k{:04}", i).into_bytes());
        }
    }
}

#[test]
fn memtable_becomes_a_table() {
    let opt = Options::default();
    let mut table = Memtable::new(1 << 20, 12);
    assert!(table.build_sstable(&opt, "a.sst").unwrap().is_none());
    table.insert(b"key1".to_vec(), Some(b"v1".to_vec()));
    table.insert(b"key3".to_vec(), Some(b"v3".to_vec()));
    table.insert(b"key2".to_vec(), None);
    let (name, bytes, reader) = table.build_sstable(&opt, "a.sst").unwrap().unwrap();
    assert_eq!(name, "a.sst");
    assert_eq!(reader.file_size(), bytes.len());
    assert_eq!(reader.min_key(), &b"key1".to_vec());
    assert_eq!(reader.max_key(), &b"key3".to_vec());
    assert_eq!(reader.get(b"key1").unwrap(), Some(vec![1, 2, 0, 0, 0, 0, 0, 0, 0, b'v', b'1']));
    assert_eq!(reader.get(b"key2").unwrap(), Some(vec![0]));
    assert_eq!(reader.get(b"key4").unwrap(), None);
}
