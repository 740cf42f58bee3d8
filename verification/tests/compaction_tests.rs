use mirdb::compaction::{compact, merge_runs, merge_tables, table_scan};
use mirdb::manifest::ManifestBuilder;
use mirdb::options::Options;
use mirdb::sstable::block_handle::BlockHandle;
use mirdb::sstable::cache::{BlockCache, CacheKey};
use mirdb::sstable::result::StatusCode;
use mirdb::sstable::table_builder::TableBuilder;
use mirdb::sstable::table_reader::TableReader;
use mirdb::sstable_reader::SstableReader;
use mirdb::store::{setter_value, Store};
use mirdb::request::SetterType;
use mirdb::wal::WAL;

fn opt() -> Options {
    let mut o = Options::default();
    o.block_size = 32;
    o
}

fn table(name: &str, entries: &[(&str, &str)]) -> TableReader {
    let o = opt().get_table_opt();
    let mut b = TableBuilder::new(name, o);
    for (k, v) in entries {
        b.add(k.as_bytes(), v.as_bytes()).unwrap();
    }
    TableReader::new(name, b.flush().unwrap(), o).unwrap()
}

fn pairs(entries: &[(&str, &str)]) -> Vec<(Vec<u8>, Vec<u8>)> {
    entries.iter().map(|(k, v)| (k.as_bytes().to_vec(), v.as_bytes().to_vec())).collect()
}

fn catalog() -> SstableReader {
    SstableReader::new(opt(), ManifestBuilder::new(opt().max_level), &vec![]).unwrap()
}

#[test]
fn merge_keeps_the_newer_entry_of_a_key() {
    let newer = pairs(&[("b", "new"), ("d", "4"), ("x", "9")]);
    let older = pairs(&[("a", "1"), ("b", "old"), ("c", "3"), ("z", "0")]);
    assert_eq!(
        merge_runs(&newer, &older),
        pairs(&[("a", "1"), ("b", "new"), ("c", "3"), ("d", "4"), ("x", "9"), ("z", "0")])
    );
    assert_eq!(merge_runs(&vec![], &older), older);
    assert_eq!(merge_runs(&newer, &vec![]), newer);
    assert_eq!(merge_runs(&vec![], &vec![]), vec![]);
}

#[test]
fn a_table_is_scanned_from_its_first_entry_to_its_last() {
    let entries: Vec<(String, String)> =
        (0..200).map(|i| (format!("key{:04}", i), format!("value{}", i))).collect();
    let as_refs: Vec<(&str, &str)> = entries.iter().map(|(k, v)| (k.as_str(), v.as_str())).collect();
    let t = table("t", &as_refs);
    assert_eq!(table_scan(&t), pairs(&as_refs));
    assert_eq!(table_scan(&table("e", &[])), vec![]);
}

#[test]
fn tables_merge_in_the_order_in_which_a_lookup_asks_them() {
    let tables = vec![table("1", &[("a", "1"), ("k", "1")]), table("2", &[("a", "2"), ("b", "2")])];
    assert_eq!(
        merge_tables(&tables, true, vec![]),
        pairs(&[("a", "2"), ("b", "2"), ("k", "1")])
    );
    assert_eq!(
        merge_tables(&tables, false, pairs(&[("k", "0")])),
        pairs(&[("a", "1"), ("b", "2"), ("k", "0")])
    );
}

#[test]
fn compaction_changes_no_lookup() {
    let mut c = catalog();
    c.add(1, table("l1a", &[("a", "old-a"), ("c", "old-c")])).unwrap();
    c.add(1, table("l1b", &[("m", "old-m"), ("q", "old-q")])).unwrap();
    c.add(2, table("l2", &[("a", "oldest-a"), ("zz", "oldest-zz")])).unwrap();
    c.add(0, table("l0a", &[("a", "mid-a"), ("n", "mid-n")])).unwrap();
    c.add(0, table("l0b", &[("b", "new-b"), ("n", "new-n"), ("q", "new-q")])).unwrap();
    let keys = ["", "a", "b", "c", "d", "m", "n", "q", "r", "zz", "zzz"];
    let before: Vec<Option<Vec<u8>>> = keys.iter().map(|k| c.get(k.as_bytes()).unwrap()).collect();
    assert_eq!(before[1], Some(b"mid-a".to_vec()));
    assert_eq!(before[6], Some(b"new-n".to_vec()));

    let (name, bytes, obsolete) = compact(&mut c, 0, "merged.sst").unwrap().unwrap();
    assert_eq!(name, "merged.sst");
    assert_eq!(obsolete, vec!["l0a", "l0b", "l1a", "l1b"]);
    assert_eq!(c.get_readers(0).len(), 0);
    assert_eq!(c.get_readers(1).len(), 1);
    assert_eq!(c.get_readers(1)[0].file_size(), bytes.len());
    assert_eq!(c.get_readers(2).len(), 1);
    assert_eq!(c.manifest_builder().file_metas(0).unwrap().len(), 0);
    assert_eq!(c.manifest_builder().file_metas(1).unwrap()[0].file_name, "merged.sst");
    let after: Vec<Option<Vec<u8>>> = keys.iter().map(|k| c.get(k.as_bytes()).unwrap()).collect();
    assert_eq!(before, after);

    // once more, a level from 1 on into the level below it
    let (_, _, obsolete) = compact(&mut c, 1, "deeper.sst").unwrap().unwrap();
    assert_eq!(obsolete, vec!["merged.sst", "l2"]);
    let after: Vec<Option<Vec<u8>>> = keys.iter().map(|k| c.get(k.as_bytes()).unwrap()).collect();
    assert_eq!(before, after);
    // nothing is left above
    assert_eq!(compact(&mut c, 0, "none.sst").unwrap(), None);
    assert_eq!(c.get_readers(2).len(), 1);
}

#[test]
fn a_store_compacts_without_losing_a_tombstone() {
    let o = opt();
    let mut c = catalog();
    let mut s0 = Store::new(o.clone(), WAL::new(o.clone(), vec![]).unwrap(), catalog());
    s0.set(b"x".to_vec(), b"old".to_vec()).unwrap();
    s0.set(b"y".to_vec(), b"kept".to_vec()).unwrap();
    s0.seal().unwrap();
    let (name, bytes) = s0.flush_sealed().unwrap().unwrap();
    c.add(1, TableReader::new(&name, bytes, o.get_table_opt()).unwrap()).unwrap();
    let mut s = Store::new(o.clone(), WAL::new(o.clone(), vec![]).unwrap(), c);
    s.delete(b"x".to_vec()).unwrap();
    s.seal().unwrap();
    // the catalog holds table 0 already: the numbers go on behind it
    assert_eq!(s.flush_sealed().unwrap().unwrap().0, "000001.sst");
    assert_eq!(s.get(&b"x".to_vec()).unwrap(), None);
    let (merged, bytes, obsolete) = s.compact(0).unwrap().unwrap();
    assert_eq!(merged, "000002.sst");
    assert_eq!(obsolete, vec!["000001.sst", "000000.sst"]);
    assert_eq!(s.readers().get_readers(0).len(), 0);
    assert_eq!(s.readers().get_readers(1).len(), 1);
    assert_eq!(s.readers().get_readers(1)[0].file_name(), "000002.sst");
    assert_eq!(s.readers().get_readers(1)[0].file_size(), bytes.len());
    assert_eq!(s.get(&b"x".to_vec()).unwrap(), None);
    assert_eq!(s.get(&b"y".to_vec()).unwrap(), Some(b"kept".to_vec()));
    assert!(s.take_manifest_dirty());
    assert_eq!(s.compute_compaction_levels(), vec![]);
}

#[test]
fn the_cache_drops_the_block_used_least_recently() {
    let long = "v".repeat(30);
    let t = table("t", &[("a", &long), ("b", &long), ("c", &long), ("d", &long)]);
    let mut handles = vec![];
    let mut index = t.index_block.iter();
    while index.advance() {
        handles.push(BlockHandle::decode(&index.current_v().unwrap()).unwrap().0);
    }
    assert!(handles.len() >= 3);
    let mut cache = BlockCache::new(2);
    let b0 = t.read_block_cached(&mut cache, 7, &handles[0]).unwrap();
    assert_eq!(cache.len(), 1);
    t.read_block_cached(&mut cache, 7, &handles[1]).unwrap();
    assert_eq!(cache.len(), 2);
    // block 0 is used again, so block 1 is the one to go
    assert_eq!(t.read_block_cached(&mut cache, 7, &handles[0]).unwrap().block, b0.block);
    t.read_block_cached(&mut cache, 7, &handles[2]).unwrap();
    assert_eq!(cache.len(), 2);
    let key = |i: usize| CacheKey { file_id: 7, offset: handles[i].offset() };
    assert!(cache.get(&key(1)).is_none());
    assert!(cache.get(&key(0)).is_some());
    assert!(cache.get(&key(2)).is_some());
    // the same offset in another file is another block
    assert!(cache.get(&CacheKey { file_id: 8, offset: handles[0].offset() }).is_none());
    // a cached block is returned as it is cached, whatever the file holds now
    let other = table("u", &[("zz", "other")]);
    assert_eq!(other.read_block_cached(&mut cache, 7, &handles[0]).unwrap().block, b0.block);
    // a block that cannot be read is not cached
    let bad = BlockHandle::new(1 << 40, 9);
    assert_eq!(t.read_block_cached(&mut cache, 7, &bad).unwrap_err().code, StatusCode::IOError);
    assert_eq!(cache.len(), 2);
    let mut none = BlockCache::new(0);
    t.read_block_cached(&mut none, 7, &handles[0]).unwrap();
    assert_eq!(none.len(), 0);
}

#[test]
fn storage_commands_store_what_their_kind_says() {
    assert_eq!(setter_value(SetterType::Store, None, b"p"), Some(b"p".to_vec()));
    assert_eq!(setter_value(SetterType::Store, Some(b"o"), b"p"), Some(b"p".to_vec()));
    assert_eq!(setter_value(SetterType::Add, None, b"p"), Some(b"p".to_vec()));
    assert_eq!(setter_value(SetterType::Add, Some(b"o"), b"p"), None);
    assert_eq!(setter_value(SetterType::Replace, None, b"p"), None);
    assert_eq!(setter_value(SetterType::Replace, Some(b"o"), b"p"), Some(b"p".to_vec()));
    assert_eq!(setter_value(SetterType::Append, Some(b"o"), b"p"), Some(b"op".to_vec()));
    assert_eq!(setter_value(SetterType::Append, None, b"p"), None);
    assert_eq!(setter_value(SetterType::Prepend, Some(b"o"), b"p"), Some(b"po".to_vec()));
    assert_eq!(setter_value(SetterType::Prepend, None, b"p"), None);
}
