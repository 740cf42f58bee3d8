use mirdb::sstable::block::{block_from_frame, frame_block};
use mirdb::sstable::block_builder::BlockBuilder;
use mirdb::sstable::block_handle::BlockHandle;
use mirdb::sstable::options::{CompressType, Options};
use mirdb::sstable::result::{MyResult, StatusCode};
use mirdb::sstable::table_builder::TableBuilder;
use mirdb::sstable::table_iter::TableIter;
use mirdb::sstable::table_reader::TableReader;

static N: usize = 100;

fn get_data() -> Vec<(String, String)> {
    let mut data = vec![];
    let mut key_prefix = "prefix_key".to_owned();
    let value_prefix = "value";
    for i in 1..=N {
        if i % 10 == 0 {
            key_prefix += "a";
        }
        let key = format!("{}{}", key_prefix, i);
        let value = format!("{}{}", value_prefix, i);
        data.push((key, value));
    }
    data
}

fn build(path: &str, opt: Options, data: &[(String, String)]) -> MyResult<Vec<u8>> {
    let mut t = TableBuilder::new(path, opt);
    for (k, v) in data {
        t.add(k.as_bytes(), v.as_bytes())?;
    }
    t.flush()
}

#[test]
fn test_seek() -> MyResult<()> {
    let path = "/tmp/test_table_iter";
    let mut opt = Options::default();
    opt.block_size = 1;
    let data = get_data();
    let file = build(path, opt.clone(), &data)?;

    let t = TableReader::new(path, file, opt.clone())?;

    let mut iter = TableIter::new(&t);
    assert_eq!(None, iter.current_kv());
    for i in 0..N {
        let key = &data[i].0;
        iter.seek(key.as_bytes());
        if iter.current_k().unwrap() != key.as_bytes() {
            println!("error seek i: {} k: {:?}", i, iter.current_k().unwrap());
            println!("v: {:?}", iter.current_v().unwrap());
            assert!(false);
        }
    }
    Ok(())
}

#[test]
fn test_advance_prev() -> MyResult<()> {
    let path = "/tmp/test_table_advance_prev";
    let mut opt = Options::default();
    opt.block_size = 20;
    let data = get_data();
    let file = build(path, opt.clone(), &data)?;
    let t = TableReader::new(path, file, opt.clone())?;

    let mut iter = TableIter::new(&t);
    assert!(iter.advance());
    assert_eq!(Some(b"prefix_key1".to_vec()), iter.current_k());
    assert!(iter.advance());
    assert_eq!(Some(b"prefix_key2".to_vec()), iter.current_k());
    assert!(iter.prev());
    assert_eq!(Some(b"prefix_key1".to_vec()), iter.current_k());
    assert!(iter.advance());
    assert_eq!(Some(b"prefix_key2".to_vec()), iter.current_k());
    assert!(iter.advance());
    assert_eq!(Some(b"prefix_key3".to_vec()), iter.current_k());
    assert!(iter.prev());
    assert_eq!(Some(b"prefix_key2".to_vec()), iter.current_k());
    assert!(iter.prev());
    assert_eq!(Some(b"prefix_key1".to_vec()), iter.current_k());
    assert!(!iter.prev());
    assert_eq!(None, iter.current_k());
    assert!(iter.advance());
    assert_eq!(Some(b"prefix_key1".to_vec()), iter.current_k());
    assert!(iter.advance());
    assert_eq!(Some(b"prefix_key2".to_vec()), iter.current_k());
    assert!(iter.prev());
    assert_eq!(Some(b"prefix_key1".to_vec()), iter.current_k());
    assert!(!iter.prev());
    assert_eq!(None, iter.current_k());

    for i in 0..N {
        assert!(iter.advance());
        let key = &data[i].0;
        if iter.current_k().unwrap() != key.as_bytes() {
            println!(
                "error advance i: {} k: {} current_k: {:?}",
                i,
                key,
                iter.current_k().unwrap()
            );
            assert!(false);
        }
    }
    assert!(!iter.advance());
    assert_eq!(None, iter.current_kv());
    assert!(!iter.advance());
    assert_eq!(None, iter.current_kv());

    for i in (0..N - 1).into_iter().rev() {
        iter.prev();
        let key = &data[i].0;
        if iter.current_k().unwrap() != key.as_bytes() {
            println!("error prev i: {} k: {:?}", i, iter.current_k().unwrap());
            assert!(false);
        }
    }

    assert!(!iter.prev());
    assert_eq!(None, iter.current_kv());
    assert!(!iter.prev());
    assert_eq!(None, iter.current_kv());

    let mut iter = TableIter::new(&t);
    iter.seek_to_last();
    assert_eq!(iter.current_k().unwrap(), data[N - 1].0.as_bytes());
    for i in (0..N - 1).into_iter().rev() {
        iter.prev();
        let key = &data[i].0;
        if iter.current_k().unwrap() != key.as_bytes() {
            println!("error prev i: {} k: {:?}", i, iter.current_k().unwrap());
            assert!(false);
        }
    }
    iter.prev();
    assert_eq!(None, iter.current_kv());
    Ok(())
}

#[test]
fn table_round_trip_returns_every_value_and_nothing_else() {
    for ctype in [CompressType::Uncompressed, CompressType::Snappy] {
        for block_size in [1usize, 64, 4096] {
            let mut opt = Options::default();
            opt.block_size = block_size;
            opt.compress_type = ctype;
            let data = get_data();
            let file = build("t.sst", opt, &data).unwrap();
            let t = TableReader::new("t.sst", file, opt).unwrap();
            assert_eq!(t.min_key().as_slice(), data[0].0.as_bytes());
            assert_eq!(t.max_key().as_slice(), data[N - 1].0.as_bytes());
            for (k, v) in &data {
                assert_eq!(t.get(k.as_bytes()).unwrap(), Some(v.as_bytes().to_vec()));
            }
            assert_eq!(t.get(b"prefix_key").unwrap(), None);
            assert_eq!(t.get(b"prefix_key10").unwrap(), None);
            assert_eq!(t.get(b"zzz").unwrap(), None);
            assert_eq!(t.get(b"").unwrap(), None);
        }
    }
}

#[test]
fn table_cursor_with_many_entries_in_a_block() {
    let mut opt = Options::default();
    opt.block_size = 200;
    opt.block_restart_interval = 4;
    let data = get_data();
    let file = build("t.sst", opt, &data).unwrap();
    let t = TableReader::new("t.sst", file, opt).unwrap();
    let mut it = t.iter();
    for (k, v) in &data {
        assert!(it.advance());
        assert_eq!(it.current_kv(), Some((k.as_bytes().to_vec(), v.as_bytes().to_vec())));
    }
    assert!(!it.advance());
    it.seek_to_last();
    assert_eq!(it.current_k().unwrap(), data[N - 1].0.as_bytes());
    for i in (0..N - 1).rev() {
        assert!(it.prev());
        assert_eq!(it.current_k().unwrap(), data[i].0.as_bytes());
    }
    assert!(!it.prev());
    // a key between two entries leads to the second
    it.seek(b"prefix_key10");
    assert_eq!(it.current_k().unwrap(), b"prefix_key2".to_vec());
    it.seek(b"zzzz");
    assert!(!it.valid());
    it.seek(b"");
    assert_eq!(it.current_k().unwrap(), b"prefix_key1".to_vec());
}

#[test]
fn empty_table_round_trip() {
    let opt = Options::default();
    let file = TableBuilder::new("e.sst", opt).flush().unwrap();
    let t = TableReader::new("e.sst", file, opt).unwrap();
    assert_eq!(t.get(b"a").unwrap(), None);
    let mut it = t.iter();
    assert!(!it.advance());
    it.seek_to_last();
    assert!(!it.valid());
}

#[test]
fn corrupt_data_block_gives_checksum_error_and_other_blocks_still_read() {
    let mut opt = Options::default();
    opt.block_size = 64;
    let data = get_data();
    let mut file = build("t.sst", opt, &data).unwrap();
    // the first data block starts at offset 0; flip a byte of its payload
    file[5] ^= 0x01;
    let t = TableReader::new("t.sst", file, opt);
    // the first key is read when the table is opened
    assert_eq!(t.err().unwrap().code, StatusCode::ChecksumError);

    let mut file = build("t.sst", opt, &data).unwrap();
    // a block in the middle: find one through the reader of the sound table
    let sound = TableReader::new("t.sst", file.clone(), opt).unwrap();
    let mut index = sound.index_block.iter();
    index.seek(data[50].0.as_bytes());
    let handle = BlockHandle::decode(&index.current_v().unwrap())
        .unwrap()
        .0;
    file[handle.offset() + 3] ^= 0x80;
    let t = TableReader::new("t.sst", file, opt).unwrap();
    assert_eq!(t.get(data[50].0.as_bytes()).unwrap_err().code, StatusCode::ChecksumError);
    assert_eq!(t.get(data[0].0.as_bytes()).unwrap(), Some(data[0].1.as_bytes().to_vec()));
    assert_eq!(t.get(data[N - 1].0.as_bytes()).unwrap(), Some(data[N - 1].1.as_bytes().to_vec()));
}

#[test]
fn every_single_byte_flip_in_a_frame_is_noticed() {
    let mut b = BlockBuilder::new(Options::default());
    b.add(b"alpha", b"1");
    b.add(b"beta", b"2");
    let frame = frame_block(&b.finish(), CompressType::Uncompressed).unwrap();
    for i in 0..frame.len() - 5 {
        let mut bad = frame.clone();
        bad[i] ^= 0x10;
        assert_eq!(block_from_frame(&bad).unwrap_err().code, StatusCode::ChecksumError);
    }
    let mut bad = frame.clone();
    let n = bad.len();
    bad[n - 5] = 7;
    // the type byte is under the checksum too
    assert_eq!(block_from_frame(&bad).unwrap_err().code, StatusCode::ChecksumError);
    assert_eq!(block_from_frame(&frame[..3]).unwrap_err().code, StatusCode::InvalidData);
}

#[test]
fn table_without_footer_is_invalid() {
    let opt = Options::default();
    assert_eq!(TableReader::new("x", vec![1, 2, 3], opt).err().unwrap().code, StatusCode::InvalidData);
    assert_eq!(TableReader::new("x", vec![0; 48], opt).err().unwrap().code, StatusCode::InvalidData);
}
