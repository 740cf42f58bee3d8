use mirdb::manifest::{recover_action, FileMeta, ManifestBuilder, RecoverAction};
use mirdb::memtable::Memtable;
use mirdb::options::Options;
use mirdb::sstable::result::StatusCode;
use mirdb::sstable::table_builder::TableBuilder;
use mirdb::sstable::table_reader::TableReader;
use mirdb::sstable_reader::{sort_readers, table_reader_to_file_meta, SstableReader};
use mirdb::store::Store;
use mirdb::wal::WAL;

fn opt() -> Options {
    let mut o = Options::default();
    o.work_dir = "/tmp/mirdb_store".to_owned();
    o
}

/// A table of raw values.
fn raw_table(name: &str, entries: &[(&str, &str)]) -> TableReader {
    let o = opt().get_table_opt();
    let mut b = TableBuilder::new(name, o);
    for (k, v) in entries {
        b.add(k.as_bytes(), v.as_bytes()).unwrap();
    }
    TableReader::new(name, b.flush().unwrap(), o).unwrap()
}

/// A table as a memtable makes it: values in their stored form.
fn stored_table(name: &str, entries: &[(&str, Option<&str>)]) -> TableReader {
    let mut m = Memtable::new(1 << 20, 12);
    for (k, v) in entries {
        m.insert(k.as_bytes().to_vec(), v.map(|s| s.as_bytes().to_vec()));
    }
    m.build_sstable(&opt(), name).unwrap().unwrap().2
}

fn empty_catalog() -> SstableReader {
    SstableReader::new(opt(), ManifestBuilder::new(opt().max_level), &vec![]).unwrap()
}

fn names(c: &SstableReader, level: usize) -> Vec<String> {
    c.get_readers(level).iter().map(|r| r.file_name().clone()).collect()
}

#[test]
fn flush_to_level_0_then_get() {
    let mut s = Store::new(opt(), WAL::new(opt(), vec![]).unwrap(), empty_catalog());
    s.set(b"key1".to_vec(), b"v1".to_vec()).unwrap();
    s.set(b"key2".to_vec(), b"v2".to_vec()).unwrap();
    s.set(b"key3".to_vec(), b"v3".to_vec()).unwrap();
    assert_eq!(s.flush_sealed().unwrap(), None);
    s.seal().unwrap();
    assert_eq!(s.sealed_count(), 1);
    let (name, bytes) = s.flush_sealed().unwrap().unwrap();
    assert_eq!(name, "000000.sst");
    assert_eq!(s.sealed_count(), 0);
    assert_eq!(s.readers().get_readers(0).len(), 1);
    assert_eq!(s.readers().get_readers(0)[0].file_size(), bytes.len());
    assert_eq!(s.readers().manifest_builder().file_metas(0).unwrap()[0].file_name, "000000.sst");
    assert_eq!(s.get(&b"key2".to_vec()).unwrap(), Some(b"v2".to_vec()));
    assert_eq!(s.get(&b"key4".to_vec()).unwrap(), None);
    // the segment of the flushed memtable is done with
    assert!(s.wal().get_seg(0).unwrap().deleted());
}

#[test]
fn last_write_wins_in_the_table_and_in_the_replayed_log() {
    let mut s = Store::new(opt(), WAL::new(opt(), vec![]).unwrap(), empty_catalog());
    s.set(b"a".to_vec(), b"1".to_vec()).unwrap();
    s.set(b"a".to_vec(), b"2".to_vec()).unwrap();
    // a crash before the flush: a new store on the same log
    let files = vec![(
        s.wal().get_seg(0).unwrap().file_name.clone(),
        s.wal().get_seg(0).unwrap().data.clone(),
    )];
    let again = Store::new(opt(), WAL::new(opt(), files).unwrap(), empty_catalog());
    assert_eq!(again.get(&b"a".to_vec()).unwrap(), Some(b"2".to_vec()));
    s.seal().unwrap();
    s.flush_sealed().unwrap().unwrap();
    assert_eq!(s.get(&b"a".to_vec()).unwrap(), Some(b"2".to_vec()));
}

#[test]
fn a_deleted_key_hides_an_old_value_in_a_table() {
    let mut c = empty_catalog();
    c.add(2, stored_table("old.sst", &[("x", Some("old")), ("y", Some("kept"))])).unwrap();
    let mut s = Store::new(opt(), WAL::new(opt(), vec![]).unwrap(), c);
    assert_eq!(s.get(&b"x".to_vec()).unwrap(), Some(b"old".to_vec()));
    s.delete(b"x".to_vec()).unwrap();
    assert_eq!(s.get(&b"x".to_vec()).unwrap(), None);
    assert_eq!(s.get(&b"y".to_vec()).unwrap(), Some(b"kept".to_vec()));
    // the tombstone still wins once it is in a table of level 0
    s.seal().unwrap();
    s.flush_sealed().unwrap().unwrap();
    assert_eq!(s.get(&b"x".to_vec()).unwrap(), None);
    assert_eq!(s.get(&b"y".to_vec()).unwrap(), Some(b"kept".to_vec()));
}

#[test]
fn a_full_memtable_is_sealed_and_still_read() {
    let mut o = opt();
    o.memtable_max_size = 60;
    let mut s = Store::new(o.clone(), WAL::new(o.clone(), vec![]).unwrap(), empty_catalog());
    s.set(b"k1".to_vec(), vec![1; 20]).unwrap();
    assert_eq!(s.sealed_count(), 0);
    s.set(b"k2".to_vec(), vec![2; 20]).unwrap();
    assert_eq!(s.sealed_count(), 1);
    s.set(b"k1".to_vec(), vec![3; 4]).unwrap();
    assert_eq!(s.get(&b"k1".to_vec()).unwrap(), Some(vec![3; 4]));
    assert_eq!(s.get(&b"k2".to_vec()).unwrap(), Some(vec![2; 20]));
    s.flush_sealed().unwrap().unwrap();
    assert_eq!(s.get(&b"k1".to_vec()).unwrap(), Some(vec![3; 4]));
    assert_eq!(s.get(&b"k2".to_vec()).unwrap(), Some(vec![2; 20]));
}

#[test]
fn a_table_value_that_is_no_stored_value_is_invalid_data() {
    let mut c = empty_catalog();
    c.add(1, raw_table("raw.sst", &[("k", "\u{7}")])).unwrap();
    let s = Store::new(opt(), WAL::new(opt(), vec![]).unwrap(), c);
    assert_eq!(s.get(&b"k".to_vec()).unwrap_err().code, StatusCode::InvalidData);
}

#[test]
fn level_0_asks_the_table_added_last_first() {
    let mut c = empty_catalog();
    c.add(0, raw_table("1.sst", &[("a", "old"), ("m", "m1"), ("z", "z1")])).unwrap();
    c.add(0, raw_table("2.sst", &[("a", "new"), ("c", "c2")])).unwrap();
    c.add(0, raw_table("3.sst", &[("b", "b3"), ("y", "y3")])).unwrap();
    assert_eq!(names(&c, 0), vec!["1.sst", "2.sst", "3.sst"]);
    assert_eq!(c.get(b"a").unwrap(), Some(b"new".to_vec()));
    // the range of 3.sst holds "m", the table does not: the older table is asked
    assert_eq!(c.get(b"m").unwrap(), Some(b"m1".to_vec()));
    assert_eq!(c.get(b"zz").unwrap(), None);
    let found: Vec<String> =
        c.search_readers(0, b"c").iter().map(|r| r.file_name().clone()).collect();
    assert_eq!(found, vec!["3.sst", "2.sst", "1.sst"]);
    let found: Vec<String> =
        c.search_readers(0, b"a").iter().map(|r| r.file_name().clone()).collect();
    assert_eq!(found, vec!["2.sst", "1.sst"]);
    assert!(c.search_readers(7, b"a").is_empty());
}

#[test]
fn levels_from_1_on_stay_sorted_and_disjoint() {
    let mut c = empty_catalog();
    c.add(1, raw_table("m.sst", &[("m", "1"), ("p", "2")])).unwrap();
    c.add(1, raw_table("a.sst", &[("a", "3"), ("c", "4")])).unwrap();
    c.add_readers(1, vec![raw_table("x.sst", &[("x", "5")]), raw_table("e.sst", &[("e", "6"), ("f", "7")])])
        .unwrap();
    assert_eq!(names(&c, 1), vec!["a.sst", "e.sst", "m.sst", "x.sst"]);
    let rs = c.get_readers(1);
    for i in 0..rs.len() - 1 {
        assert!(rs[i].max_key() < rs[i + 1].min_key());
    }
    let found: Vec<String> =
        c.search_readers(1, b"f").iter().map(|r| r.file_name().clone()).collect();
    assert_eq!(found, vec!["e.sst"]);
    assert!(c.search_readers(1, b"d").is_empty());
    assert!(c.search_readers(1, b"").is_empty());
    assert_eq!(c.search_readers(1, b"x").len(), 1);
    assert_eq!(c.search_readers(1, b"a").len(), 1);
    assert_eq!(c.get(b"p").unwrap(), Some(b"2".to_vec()));
    assert_eq!(c.get(b"n").unwrap(), None);

    c.remove_by_file_names(1, &vec!["e.sst".to_owned(), "nothing.sst".to_owned()]).unwrap();
    assert_eq!(names(&c, 1), vec!["a.sst", "m.sst", "x.sst"]);
    let metas: Vec<String> = c
        .manifest_builder()
        .file_metas(1)
        .unwrap()
        .iter()
        .map(|m| m.file_name.clone())
        .collect();
    assert_eq!(metas, vec!["m.sst", "a.sst", "x.sst"]);
    assert_eq!(c.get(b"f").unwrap(), None);
    assert!(c.manifest_builder_mut().take_dirty());
    assert!(!c.manifest_builder_mut().take_dirty());
}

#[test]
fn sort_readers_keeps_the_order_of_equal_first_keys() {
    let mut rs = vec![
        raw_table("b1", &[("b", "")]),
        raw_table("a1", &[("a", ""), ("z", "")]),
        raw_table("b2", &[("b", ""), ("c", "")]),
        raw_table("a2", &[("a", "")]),
    ];
    sort_readers(&mut rs);
    let got: Vec<&str> = rs.iter().map(|r| r.file_name().as_str()).collect();
    assert_eq!(got, vec!["a1", "a2", "b1", "b2"]);
    assert_eq!(table_reader_to_file_meta(&rs[0]), FileMeta::new("a1".to_owned()));
}

#[test]
fn five_tables_at_level_0_ask_for_compaction_first() {
    let mut o = opt();
    o.l0_compaction_trigger = 4;
    let mut c = SstableReader::new(o.clone(), ManifestBuilder::new(o.max_level), &vec![]).unwrap();
    assert_eq!(c.compute_compaction_levels(), vec![]);
    for i in 0..5 {
        c.add(0, raw_table(&format!("{}.sst", i), &[("k", "v")])).unwrap();
    }
    assert_eq!(c.compute_compaction_levels(), vec![0]);
}

#[test]
fn compaction_levels_come_in_the_order_of_their_scores() {
    let mut o = opt();
    o.l0_compaction_trigger = 2;
    o.max_level = 4;
    let mut c = SstableReader::new(o.clone(), ManifestBuilder::new(4), &vec![]).unwrap();
    // level 0: 3 tables over a trigger of 2, score 1.5
    for i in 0..3 {
        c.add(0, raw_table(&format!("l0_{}", i), &[("k", "v")])).unwrap();
    }
    // level 1 may hold 10 MiB: one table of 20 MiB and more, score above 2
    let big = vec![b'v'; 1 << 20];
    let o1 = o.get_table_opt();
    let mut b = TableBuilder::new("l1", o1);
    for i in 0..21 {
        b.add(format!("k{:02}", i).as_bytes(), &big).unwrap();
    }
    let file = b.flush().unwrap();
    assert!(file.len() > 2 * 10 * 1048576);
    c.add(1, TableReader::new("l1", file, o1).unwrap()).unwrap();
    // level 2 may hold 100 MiB and holds little
    c.add(2, raw_table("l2", &[("a", "b")])).unwrap();
    assert_eq!(c.compute_compaction_levels(), vec![1, 0]);
}

#[test]
fn catalog_loads_what_the_manifest_lists() {
    let o = opt();
    let t = |name: &str, key: &str| {
        let mut b = TableBuilder::new(name, o.get_table_opt());
        b.add(key.as_bytes(), b"v").unwrap();
        (name.to_owned(), b.flush().unwrap())
    };
    let files = vec![t("2.sst", "b"), t("1.sst", "q"), t("3.sst", "a"), t("orphan.sst", "o")];
    let mut m = ManifestBuilder::new(o.max_level);
    m.add_file_meta(0, FileMeta::new("1.sst".to_owned()));
    m.add_file_meta(0, FileMeta::new("2.sst".to_owned()));
    m.add_file_meta(1, FileMeta::new("1.sst".to_owned()));
    m.add_file_meta(1, FileMeta::new("3.sst".to_owned()));
    m.add_file_meta(99, FileMeta::new("nowhere.sst".to_owned()));
    assert_eq!(m.level_count(), 7);
    assert!(m.file_metas(7).is_none());
    let present: Vec<String> = files.iter().map(|f| f.0.clone()).collect();
    assert!(m.check_files(&present).is_ok());
    assert!(m.is_orphan(&"orphan.sst".to_owned()));
    assert!(!m.is_orphan(&"3.sst".to_owned()));
    let c = SstableReader::new(o.clone(), m, &files).unwrap();
    assert_eq!(c.level_count(), 7);
    assert_eq!(names(&c, 0), vec!["1.sst", "2.sst"]);
    assert_eq!(names(&c, 1), vec!["3.sst", "1.sst"]);
    assert_eq!(c.get(b"q").unwrap(), Some(b"v".to_vec()));

    let mut m = ManifestBuilder::new(o.max_level);
    m.add_file_meta(3, FileMeta::new("gone.sst".to_owned()));
    assert_eq!(m.check_files(&present).unwrap_err().code, StatusCode::InvalidData);
    assert_eq!(SstableReader::new(o, m, &files).err().unwrap().code, StatusCode::InvalidData);
}

#[test]
fn manifest_recovery_and_removal() {
    assert_eq!(recover_action(true, false), RecoverAction::Load);
    assert_eq!(recover_action(true, true), RecoverAction::LoadAndDeleteTmp);
    assert_eq!(recover_action(false, true), RecoverAction::PromoteTmp);
    assert_eq!(recover_action(false, false), RecoverAction::StartEmpty);
    let mut m = ManifestBuilder::from_levels(vec![
        vec![FileMeta::new("a".to_owned()), FileMeta::new("b".to_owned()), FileMeta::new("a".to_owned())],
        vec![FileMeta::new("a".to_owned())],
    ]);
    m.remove_file_meta_by_file_names(0, &vec!["a".to_owned()]);
    assert_eq!(m.file_metas(0).unwrap(), &vec![FileMeta::new("b".to_owned())]);
    assert_eq!(m.file_metas(1).unwrap().len(), 1);
    assert!(m.take_dirty());
    m.remove_file_meta_by_file_names(5, &vec!["a".to_owned()]);
    assert!(!m.take_dirty());
}

#[test]
fn a_sealed_memtable_leaves_its_segments_to_the_flush() {
    let mut o = opt();
    o.memtable_max_size = 60;
    let mut s = Store::new(o.clone(), WAL::new(o.clone(), vec![]).unwrap(), empty_catalog());
    s.set(b"k1".to_vec(), vec![1; 20]).unwrap();
    s.set(b"k2".to_vec(), vec![2; 20]).unwrap();
    // the memtable was sealed: the next write goes to a segment of its own
    assert_eq!(s.sealed_count(), 1);
    assert_eq!(s.wal().seg_count(), 2);
    s.set(b"k3".to_vec(), vec![3; 4]).unwrap();
    assert_eq!(s.wal().get_seg(0).unwrap().entries().len(), 2);
    assert_eq!(s.wal().get_seg(1).unwrap().entries().len(), 1);
    s.flush_sealed().unwrap().unwrap();
    // only the segment of the flushed memtable is done with
    assert!(s.wal().get_seg(0).unwrap().deleted());
    assert!(!s.wal().get_seg(1).unwrap().deleted());
    let entries = s.wal().entries();
    assert_eq!(entries.len(), 1);
    assert_eq!(entries[0].k, b"k3".to_vec());
    // a crash now loses nothing: the table and the log hold all three
    let files = vec![(
        s.wal().get_seg(1).unwrap().file_name.clone(),
        s.wal().get_seg(1).unwrap().data.clone(),
    )];
    let mut c = empty_catalog();
    let t = &s.readers().get_readers(0)[0];
    c.add(0, TableReader::new(t.file_name(), t.file.clone(), o.get_table_opt()).unwrap()).unwrap();
    let again = Store::new(o.clone(), WAL::new(o.clone(), files).unwrap(), c);
    assert_eq!(again.get(&b"k1".to_vec()).unwrap(), Some(vec![1; 20]));
    assert_eq!(again.get(&b"k2".to_vec()).unwrap(), Some(vec![2; 20]));
    assert_eq!(again.get(&b"k3".to_vec()).unwrap(), Some(vec![3; 4]));
}

#[test]
fn an_empty_sealed_memtable_is_dropped_without_a_table() {
    let mut s = Store::new(opt(), WAL::new(opt(), vec![]).unwrap(), empty_catalog());
    s.seal().unwrap();
    assert_eq!(s.sealed_count(), 1);
    assert_eq!(s.flush_sealed().unwrap(), None);
    assert_eq!(s.sealed_count(), 0);
    assert_eq!(s.readers().get_readers(0).len(), 0);
    // no table number was used
    s.set(b"a".to_vec(), b"1".to_vec()).unwrap();
    s.seal().unwrap();
    assert_eq!(s.flush_sealed().unwrap().unwrap().0, "000000.sst");
}

#[test]
fn table_numbers_start_above_those_of_the_catalog() {
    let mut c = empty_catalog();
    c.add(1, stored_table("000041.sst", &[("x", Some("old"))])).unwrap();
    c.add(2, stored_table("000007.sst", &[("y", Some("older"))])).unwrap();
    c.add(2, stored_table("named.sst", &[("z", Some("z"))])).unwrap();
    let mut s = Store::new(opt(), WAL::new(opt(), vec![]).unwrap(), c);
    s.set(b"a".to_vec(), b"1".to_vec()).unwrap();
    s.seal().unwrap();
    assert_eq!(s.flush_sealed().unwrap().unwrap().0, "000042.sst");
}

#[test]
fn a_write_fails_and_changes_nothing_when_the_log_has_no_file_number_left() {
    let last = format!("{}.wal", usize::MAX);
    let mut s = Store::new(opt(), WAL::new(opt(), vec![(last, vec![])]).unwrap(), empty_catalog());
    // the last segment takes the write
    s.set(b"a".to_vec(), b"1".to_vec()).unwrap();
    // no segment can be started: nothing is sealed
    assert_eq!(s.seal().unwrap_err().code, StatusCode::InvalidData);
    assert_eq!(s.sealed_count(), 0);
    assert_eq!(s.wal().seg_count(), 1);
    assert_eq!(s.get(&b"a".to_vec()).unwrap(), Some(b"1".to_vec()));
}

#[test]
fn a_catalog_is_not_made_of_a_file_that_is_no_table() {
    let o = opt();
    let good = stored_table("good.sst", &[("k", Some("v"))]);
    let mut m = ManifestBuilder::new(o.max_level);
    m.add_file_meta(1, FileMeta::new("good.sst".to_owned()));
    m.add_file_meta(2, FileMeta::new("bad.sst".to_owned()));
    let files = vec![
        ("good.sst".to_owned(), good.file.clone()),
        ("bad.sst".to_owned(), vec![1, 2, 3]),
        // only the first file of a name counts
        ("bad.sst".to_owned(), good.file.clone()),
    ];
    assert_eq!(
        SstableReader::new(o.clone(), m, &files).err().unwrap().code,
        StatusCode::InvalidData
    );
    let mut m = ManifestBuilder::new(o.max_level);
    m.add_file_meta(1, FileMeta::new("good.sst".to_owned()));
    // a level that the catalog does not have is not loaded
    m.add_file_meta(o.max_level + 3, FileMeta::new("bad.sst".to_owned()));
    let c = SstableReader::new(o, m, &files).unwrap();
    assert_eq!(names(&c, 1), vec!["good.sst"]);
    assert_eq!(c.get_readers(1)[0].file, good.file);
}
