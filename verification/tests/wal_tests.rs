use mirdb::options::Options;
use mirdb::record::{encode_entry, encode_value};
use mirdb::sstable::result::{MyResult, StatusCode};
use mirdb::wal::{file_number, LogEntry, WALSeg, WAL};

fn get_test_opt() -> Options {
    let mut opt = Options::default();
    opt.work_dir = "/tmp/mirdb_test".to_owned();
    opt
}

fn reopen(wal: &WAL, opt: Options) -> WAL {
    let mut files = vec![];
    for seg in &wal.segs {
        if !seg.deleted() {
            files.push((seg.file_name.clone(), seg.data.clone()));
        }
    }
    // a directory lists its files in no order
    files.reverse();
    WAL::new(opt, files).unwrap()
}

#[test]
fn test_wal_seg() -> MyResult<()> {
    let mut seg = WALSeg::new("/tmp/wal".to_owned());
    let mut kvs = Vec::with_capacity(3);
    kvs.push((b"a".to_vec(), b"abcasldkfjaoiwejfawoejfoaisjdflaskdjfoias".to_vec()));
    kvs.push((b"b".to_vec(), b"bbcasdlfjasldfj".to_vec()));
    kvs.push((b"c".to_vec(), b"cbcasldfjowiejfoaisdjfalskdfj".to_vec()));
    for (k, v) in &kvs {
        let entry = LogEntry::new(k.clone(), Some(v.clone()));
        seg.append(&entry)?;
    }
    let mut iter = seg.iter();
    for (k, v) in &kvs {
        let entry = LogEntry::new(k.clone(), Some(v.clone()));
        assert_eq!(Some(entry), iter.next());
    }
    assert_eq!(None, iter.next());
    Ok(())
}

#[test]
fn test_wal() -> MyResult<()> {
    let opt = get_test_opt();
    let mut wal = WAL::new(opt.clone(), vec![])?;
    let mut kvs = Vec::with_capacity(3);
    kvs.push((b"a".to_vec(), b"abcasldkfjaoiwejfawoejfoaisjdflaskdjfoias".to_vec()));
    kvs.push((b"b".to_vec(), b"bbcasdlfjasldfj".to_vec()));
    kvs.push((b"c".to_vec(), b"cbcasldfjowiejfoaisdjfalskdfj".to_vec()));
    for (k, v) in &kvs {
        let entry = LogEntry::new(k.clone(), Some(v.clone()));
        wal.new_seg()?;
        wal.append(&entry)?;
    }
    let mut wal = reopen(&wal, opt.clone());
    {
        let mut iter = wal.iter()?;
        for (k, v) in &kvs {
            let entry = LogEntry::new(k.clone(), Some(v.clone()));
            assert_eq!(Some(entry), iter.next());
        }
        assert_eq!(None, iter.next());
    }
    wal.truncate(1)?;
    {
        let mut iter = wal.iter()?;
        for (i, (k, v)) in kvs.iter().enumerate() {
            if i == 0 {
                continue;
            }
            let entry = LogEntry::new(k.clone(), Some(v.clone()));
            assert_eq!(Some(entry), iter.next());
        }
        assert_eq!(None, iter.next());
    }
    wal.truncate(1)?;
    let wal = reopen(&wal, opt.clone());
    let mut iter = wal.iter()?;
    for (i, (k, v)) in kvs.iter().enumerate() {
        if i <= 1 {
            continue;
        }
        let entry = LogEntry::new(k.clone(), Some(v.clone()));
        assert_eq!(Some(entry), iter.next());
    }
    assert_eq!(None, iter.next());
    Ok(())
}

#[test]
fn wal_segment_names_count_up_with_six_digits() {
    let mut wal = WAL::new(get_test_opt(), vec![]).unwrap();
    wal.new_seg().unwrap();
    wal.new_seg().unwrap();
    assert_eq!(wal.seg_count(), 2);
    assert_eq!(wal.get_seg(0).unwrap().file_name, "000000.wal");
    assert_eq!(wal.get_seg(1).unwrap().file_name, "000001.wal");
    assert!(wal.get_seg(2).is_none());
}

#[test]
fn wal_record_bytes_are_length_then_bincode() {
    let mut seg = WALSeg::new("s".to_owned());
    seg.append(&LogEntry::new(b"k".to_vec(), Some(b"vv".to_vec()))).unwrap();
    let body: Vec<u8> = vec![
        1, 0, 0, 0, 0, 0, 0, 0, b'k', // the key
        1, // a value is there
        2, 0, 0, 0, 0, 0, 0, 0, b'v', b'v',
    ];
    let mut want = vec![body.len() as u8];
    want.extend_from_slice(&body);
    assert_eq!(seg.data, want);
    seg.append(&LogEntry::new(b"k".to_vec(), None)).unwrap();
    assert_eq!(&seg.data[want.len()..], &[10, 1, 0, 0, 0, 0, 0, 0, 0, b'k', 0]);
    assert_eq!(seg.file_size(), want.len() + 11);
}

#[test]
fn wal_drops_a_record_that_was_not_written_to_its_end() {
    let mut seg = WALSeg::new("s".to_owned());
    let first = LogEntry::new(b"a".to_vec(), Some(b"1".to_vec()));
    let second = LogEntry::new(b"b".to_vec(), Some(vec![7u8; 300]));
    seg.append(&first).unwrap();
    let whole = seg.data.len();
    seg.append(&second).unwrap();
    let full = seg.data.clone();
    for cut in whole..full.len() {
        let torn = WALSeg::with_data("s".to_owned(), full[..cut].to_vec());
        assert_eq!(torn.entries(), vec![first.clone()]);
    }
    let sound = WALSeg::with_data("s".to_owned(), full);
    assert_eq!(sound.entries(), vec![first.clone(), second.clone()]);
}

#[test]
fn wal_append_goes_to_a_new_segment_when_the_last_is_deleted() {
    let mut wal = WAL::new(get_test_opt(), vec![]).unwrap();
    let e1 = LogEntry::new(b"a".to_vec(), Some(b"1".to_vec()));
    let e2 = LogEntry::new(b"a".to_vec(), None);
    wal.append(&e1).unwrap();
    assert_eq!(wal.seg_count(), 1);
    wal.truncate(5).unwrap();
    assert!(wal.get_seg(0).unwrap().deleted());
    assert_eq!(wal.entries(), vec![]);
    wal.append(&e2).unwrap();
    assert_eq!(wal.seg_count(), 2);
    assert_eq!(wal.entries(), vec![e2.clone()]);
    assert_eq!(e2.key(), &b"a".to_vec());
    assert_eq!(e2.value(), &None);
    assert_eq!(e1.kv(), (b"a".to_vec(), Some(b"1".to_vec())));
}

#[test]
fn wal_segment_becomes_a_table_when_its_keys_ascend() {
    let mut seg = WALSeg::new("s".to_owned());
    seg.append(&LogEntry::new(b"a".to_vec(), Some(b"1".to_vec()))).unwrap();
    seg.append(&LogEntry::new(b"b".to_vec(), None)).unwrap();
    let (name, bytes, reader) = seg.build_sstable(&get_test_opt(), "000001.sst").unwrap();
    assert_eq!(name, "000001.sst");
    assert_eq!(reader.file_size(), bytes.len());
    assert_eq!(reader.get(b"a").unwrap(), Some(vec![1, 1, 0, 0, 0, 0, 0, 0, 0, b'1']));
    assert_eq!(reader.get(b"b").unwrap(), Some(vec![0]));
    seg.append(&LogEntry::new(b"a".to_vec(), Some(b"2".to_vec()))).unwrap();
    assert_eq!(
        seg.build_sstable(&get_test_opt(), "000002.sst").err().unwrap().code,
        StatusCode::InvalidData
    );
}

#[test]
fn an_entry_and_a_value_have_their_bytes() {
    assert_eq!(
        encode_entry(&b"ab".to_vec(), &Some(b"c".to_vec())),
        Some(vec![2, 0, 0, 0, 0, 0, 0, 0, b'a', b'b', 1, 1, 0, 0, 0, 0, 0, 0, 0, b'c'])
    );
    assert_eq!(encode_entry(&vec![], &None), Some(vec![0, 0, 0, 0, 0, 0, 0, 0, 0]));
    assert_eq!(encode_value(&None), Some(vec![0]));
    assert_eq!(encode_value(&Some(vec![])), Some(vec![1, 0, 0, 0, 0, 0, 0, 0, 0]));
    assert_eq!(encode_value(&Some(vec![7, 8])), Some(vec![1, 2, 0, 0, 0, 0, 0, 0, 0, 7, 8]));
}

#[test]
fn an_empty_segment_becomes_an_empty_table() {
    let seg = WALSeg::new("s".to_owned());
    let (name, bytes, reader) = seg.build_sstable(&get_test_opt(), "e.sst").unwrap();
    assert_eq!(name, "e.sst");
    assert_eq!(reader.file_name(), "e.sst");
    assert_eq!(reader.file_size(), bytes.len());
    assert_eq!(reader.get(b"a").unwrap(), None);
}

#[test]
fn a_reopened_log_goes_on_with_the_next_file_number() {
    let mut wal = WAL::new(get_test_opt(), vec![]).unwrap();
    for _ in 0..3 {
        wal.new_seg().unwrap();
    }
    wal.truncate(2).unwrap();
    let mut again = reopen(&wal, get_test_opt());
    assert_eq!(again.seg_count(), 1);
    assert_eq!(again.get_seg(0).unwrap().file_name, "000002.wal");
    again.new_seg().unwrap();
    assert_eq!(again.get_seg(1).unwrap().file_name, "000003.wal");
    let odd = WAL::new(
        get_test_opt(),
        vec![("notes.wal".to_owned(), vec![]), ("1234567.wal".to_owned(), vec![])],
    )
    .unwrap();
    assert_eq!(odd.get_seg(0).unwrap().file_name, "1234567.wal");
    assert_eq!(odd.current_file_num, 1234568);
    assert_eq!(file_number(&"000041.wal".to_owned()), Some(41));
    assert_eq!(file_number(&"000041".to_owned()), None);
    assert_eq!(file_number(&".wal".to_owned()), None);
    assert_eq!(file_number(&"12x.wal".to_owned()), None);
    assert_eq!(file_number(&"99999999999999999999999.wal".to_owned()), None);
}

#[test]
fn a_segment_can_be_changed_in_place() {
    let mut wal = WAL::new(get_test_opt(), vec![]).unwrap();
    wal.new_seg().unwrap();
    wal.new_seg().unwrap();
    let entry = LogEntry::new(b"k".to_vec(), Some(b"v".to_vec()));
    wal.get_seg_mut(0).unwrap().append(&entry).unwrap();
    wal.get_seg_mut(1).unwrap().delete().unwrap();
    assert!(wal.get_seg_mut(2).is_none());
    assert!(!wal.get_seg(0).unwrap().deleted());
    assert!(wal.get_seg(1).unwrap().deleted());
    assert_eq!(wal.entries(), vec![entry]);
    wal.consume_seg().unwrap();
    assert!(wal.get_seg(0).unwrap().deleted());
    assert_eq!(wal.entries(), vec![]);
}

#[test]
fn a_record_without_a_body_is_not_appended() {
    let mut wal = WAL::new(get_test_opt(), vec![]).unwrap();
    assert_eq!(wal.append_encoded(None).unwrap_err().code, StatusCode::InvalidData);
    assert_eq!(wal.seg_count(), 0);
    let body = encode_entry(&b"k".to_vec(), &Some(b"v".to_vec())).unwrap();
    wal.append_encoded(Some(body.clone())).unwrap();
    assert_eq!(wal.seg_count(), 1);
    let mut want = vec![body.len() as u8];
    want.extend_from_slice(&body);
    assert_eq!(wal.get_seg(0).unwrap().data, want);
    let entries = wal.entries();
    assert_eq!(entries.len(), 1);
    assert_eq!(entries[0], LogEntry::new(b"k".to_vec(), Some(b"v".to_vec())));
}

#[test]
fn live_segments_are_counted_up_to_a_mark() {
    let mut wal = WAL::new(get_test_opt(), vec![]).unwrap();
    for _ in 0..4 {
        wal.new_seg().unwrap();
    }
    assert_eq!(wal.count_live(0), 0);
    assert_eq!(wal.count_live(3), 3);
    assert_eq!(wal.count_live(9), 4);
    wal.truncate(2).unwrap();
    assert_eq!(wal.count_live(1), 0);
    assert_eq!(wal.count_live(3), 1);
    assert_eq!(wal.count_live(4), 2);
}
