use mirdb::sstable::block::{block_from_frame, frame_block, Block};
use mirdb::sstable::block_builder::BlockBuilder;
use mirdb::sstable::block_handle::BlockHandle;
use mirdb::sstable::options::{CompressType, Options};
use mirdb::sstable::result::StatusCode;

fn get_data() -> Vec<(&'static [u8], &'static [u8])> {
    vec![
        ("key1".as_bytes(), "value1".as_bytes()),
        (
            "loooooooooooooooooooooooooooooooooongerkey1".as_bytes(),
            "shrtvl1".as_bytes(),
        ),
        ("medium length key 1".as_bytes(), "some value 2".as_bytes()),
        ("prefix_key1".as_bytes(), "value1".as_bytes()),
        ("prefix_key2".as_bytes(), "value2".as_bytes()),
        ("prefix_key3".as_bytes(), "value3".as_bytes()),
    ]
}

#[test]
fn test_new() {
    let mut b = BlockBuilder::new(Options::default());
    let data = get_data();
    for (k, v) in &data {
        b.add(*k, *v);
    }
    let file = frame_block(&b.finish(), CompressType::Uncompressed).unwrap();
    let bh = BlockHandle::new(0, file.len());
    let (b1, _) = Block::new_from_location(&file, &bh, Options::default()).unwrap();
    assert_eq!(data.len(), b1.iter().count());
    let mut bi = b1.iter();
    bi.seek("prefix_key2".as_bytes());
    assert_eq!(bi.key(), "prefix_key2".as_bytes());
    let data = get_data();
    for (k, v) in data {
        bi.seek(k);
        assert_eq!(bi.key(), k);
        assert_eq!(v, &bi.current_kv().unwrap().1[..]);
    }
}

#[test]
fn block_seek_and_prev_with_restart_interval_three() {
    let mut opt = Options::default();
    opt.block_restart_interval = 3;
    let mut b = BlockBuilder::new(opt);
    let keys = ["apple", "apricot", "banana", "blueberry", "cherry"];
    for (i, k) in keys.iter().enumerate() {
        b.add(k.as_bytes(), format!("v{}", i).as_bytes());
    }
    let block = Block::new_with_buffer(b.finish(), opt);
    let mut it = block.iter();
    it.seek(b"b");
    assert!(it.valid());
    assert_eq!(it.key(), b"banana".to_vec());
    assert!(it.prev());
    assert_eq!(it.key(), b"apricot".to_vec());
    assert_eq!(it.current_v(), Some(b"v1".to_vec()));
}

#[test]
fn snappy_frame_round_trip_and_corruption() {
    let mut b = BlockBuilder::new(Options::default());
    for i in 0..50 {
        b.add(format!("key{:03}", i).as_bytes(), b"the same value again and again");
    }
    let block = b.finish();
    let frame = frame_block(&block, CompressType::Snappy).unwrap();
    assert!(frame.len() < block.len());
    assert_eq!(block_from_frame(&frame).unwrap(), block);
    let mut bad = frame.clone();
    bad[3] ^= 0x40;
    assert_eq!(block_from_frame(&bad).unwrap_err().code, StatusCode::ChecksumError);
}

#[test]
fn block_round_trip_with_every_restart_interval() {
    let entries: Vec<(Vec<u8>, Vec<u8>)> = (0..60u32)
        .map(|i| (format!("key/{:03}/{}", i * 3, "x".repeat((i % 7) as usize)).into_bytes(), vec![i as u8; (i % 5) as usize]))
        .collect();
    for interval in [0usize, 1, 2, 3, 16, 100] {
        let mut opt = Options::default();
        opt.block_restart_interval = interval;
        let mut b = BlockBuilder::new(opt);
        assert!(b.is_empty());
        assert_eq!(b.size_estimate(), 8);
        for (k, v) in &entries {
            b.add(k, v);
            assert_eq!(b.last_key(), k);
        }
        let estimate = b.size_estimate();
        let bytes = b.finish();
        assert_eq!(bytes.len(), estimate);
        let block = Block::new_with_buffer(bytes, opt);
        let mut it = block.iter();
        assert!(!it.valid());
        for (k, v) in &entries {
            assert!(it.advance());
            assert_eq!(it.current_kv(), Some((k.clone(), v.clone())));
        }
        assert!(!it.advance());
        assert!(!it.valid());
        // from behind the last entry a step back leads to the last but one
        assert!(it.prev());
        assert_eq!(it.key(), entries[58].0);
        it.seek_to_last();
        assert_eq!(it.key(), entries[59].0);
        for i in (0..59).rev() {
            assert!(it.prev());
            assert_eq!(it.key(), entries[i].0);
        }
        assert!(!it.prev());
        assert!(it.seek_to_first());
        assert_eq!(it.key(), entries[0].0);
        for (i, (k, _)) in entries.iter().enumerate() {
            it.seek(k);
            assert_eq!(it.current_k(), Some(k.clone()));
            // a key just above leads to the next entry
            let mut above = k.clone();
            above.push(0);
            it.seek(&above);
            assert_eq!(it.current_k(), entries.get(i + 1).map(|e| e.0.clone()));
        }
        it.seek(b"");
        assert_eq!(it.key(), entries[0].0);
        it.reset();
        assert_eq!(it.count(), 60);
    }
}

#[test]
fn blocks_that_are_no_blocks_are_read_as_empty() {
    for bytes in [vec![], vec![1, 2, 3], vec![9, 9, 9, 9], vec![0, 0, 0, 0, 200, 0, 0, 0]] {
        let block = Block::new_with_buffer(bytes, Options::default());
        assert_eq!(block.restarts_offset(), 0);
        let mut it = block.iter();
        assert!(!it.advance());
        it.seek(b"a");
        assert!(!it.valid());
        it.seek_to_last();
        assert!(!it.valid());
        assert!(!it.prev());
    }
    assert_eq!(Block::new(Options::default()).iter().count(), 0);
    // entries that run into the restart offsets end the walk
    let mut it = Block::new_with_buffer(vec![0, 5, 5, b'a', 0, 0, 0, 0, 1, 0, 0, 0], Options::default());
    assert_eq!(it.iter().count(), 0);
    it.block[1] = 1;
    it.block[2] = 0;
    assert_eq!(it.iter().count(), 1);
}
