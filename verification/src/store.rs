//! The store: every mutation goes to the write-ahead log, then to the
//! memtable; a full memtable is sealed and later flushed to a table of
//! level 0. A lookup asks the memtable, then the sealed memtables from
//! the newest to the oldest, then the tables.

use crate::memtable::Memtable;
use crate::options::Options;
use crate::record::{decode_value, option_decode, option_view};
use crate::request::SetterType;
use crate::sstable::result::{MyResult, Status, StatusCode};
use crate::compaction::{
    compact, compactable, compacted, compaction_run, lemma_catalog_step, lemma_level0_lookup,
    level_lookup, level_names, names_view, newest_first, or_else,
};
use crate::memtable::{lists, writes_storable};
use crate::sstable::options::CompressType;
use crate::sstable::table_builder::table_fits;
use crate::record::{lemma_option_roundtrip, option_encoding};
use crate::sstable::table_format::lookup;
use crate::sstable::table_reader::TableReader;
use crate::sstable_reader::{all_wf, catalog_lookup, SstableReader};
use crate::util::{copy_range, extend_from, file_name_spec, make_file_name};
use crate::wal::{
    entries_view, entry_view, file_number, lemma_live_push_empty, live_before, name_number,
    truncated, EntryView, LogEntry, WAL,
};
use vstd::prelude::*;

verus! {

/// A key of the store.
pub type StoreKey = Vec<u8>;

/// A payload of the store.
pub type StorePayload = Vec<u8>;

/// What memtables hold.
pub type Writes = Map<Seq<u8>, Option<Seq<u8>>>;

/// The store.
pub struct Store {
    opt: Options,
    wal: WAL,
    memtable: Memtable,
    sealed: Vec<Memtable>,
    marks: Vec<usize>,
    readers: SstableReader,
    next_table_num: usize,
}

/// What the memtables say of a key, the last of the list first: the
/// value written last, or that the key was deleted; `None` where none
/// of them has the key.
pub open spec fn written(mems: Seq<Writes>, key: Seq<u8>) -> Option<Option<Seq<u8>>>
    decreases mems.len(),
{
    if mems.len() == 0 {
        None
    } else if mems.last().contains_key(key) {
        Some(mems.last()[key])
    } else {
        written(mems.drop_last(), key)
    }
}

/// What a table's bytes under a key stand for: a value, or that the key
/// was deleted; an error where they are no encoding of either.
pub open spec fn stored_value(found: Option<Seq<u8>>) -> Result<Option<Seq<u8>>, StatusCode> {
    match found {
        None => Ok(None),
        Some(bytes) => match option_decode(bytes) {
            Some((v, _)) => Ok(v),
            None => Err(StatusCode::InvalidData),
        },
    }
}

/// The writes with one more applied.
pub open spec fn apply_entry(w: Writes, e: EntryView) -> Writes {
    w.insert(e.0, e.1)
}

/// The writes with a list of log entries applied in order.
pub open spec fn replay(w: Writes, es: Seq<EntryView>) -> Writes
    decreases es.len(),
{
    if es.len() == 0 {
        w
    } else {
        apply_entry(replay(w, es.drop_last()), es.last())
    }
}

/// What a storage command stores, given what the store holds under its
/// key: `set` stores the payload; `add` stores it where the key has no
/// value, `replace` where it has one; `append` and `prepend` store the
/// value with the payload behind or in front of it, where the key has a
/// value. `None`: nothing is stored.
pub open spec fn setter_value_spec(
    kind: SetterType,
    existing: Option<Seq<u8>>,
    payload: Seq<u8>,
) -> Option<Seq<u8>> {
    match kind {
        SetterType::Store => Some(payload),
        SetterType::Add => if existing is None {
            Some(payload)
        } else {
            None
        },
        SetterType::Replace => if existing is Some {
            Some(payload)
        } else {
            None
        },
        SetterType::Append => match existing {
            Some(old) => Some(old + payload),
            None => None,
        },
        SetterType::Prepend => match existing {
            Some(old) => Some(payload + old),
            None => None,
        },
    }
}

/// What a storage command stores, given what the store holds under its
/// key; `None` where it stores nothing.
pub fn setter_value(kind: SetterType, existing: Option<&[u8]>, payload: &[u8]) -> (r: Option<
    Vec<u8>,
>)
    ensures
        option_view(r) == setter_value_spec(
            kind,
            match existing {
                Some(b) => Some(b@),
                None => None,
            },
            payload@,
        ),
{
    let whole = copy_range(payload, 0, payload.len());
    assert(whole@ =~= payload@);
    match kind {
        SetterType::Store => Some(whole),
        SetterType::Add => match existing {
            None => Some(whole),
            Some(_) => None,
        },
        SetterType::Replace => match existing {
            Some(_) => Some(whole),
            None => None,
        },
        SetterType::Append => match existing {
            Some(old) => {
                let mut v = copy_range(old, 0, old.len());
                assert(v@ =~= old@);
                extend_from(&mut v, payload);
                Some(v)
            },
            None => None,
        },
        SetterType::Prepend => match existing {
            Some(old) => {
                let mut v = whole;
                extend_from(&mut v, old);
                Some(v)
            },
            None => None,
        },
    }
}

/// What the memtables say of a key without the oldest of them: the same,
/// unless only the oldest has the key.
pub proof fn lemma_written_skip(mems: Seq<Writes>, key: Seq<u8>)
    requires
        mems.len() >= 2,
    ensures
        written(mems, key) == (match written(mems.skip(1), key) {
            Some(v) => Some(v),
            None => if mems[0].contains_key(key) {
                Some(mems[0][key])
            } else {
                None
            },
        }),
    decreases mems.len(),
{
    let rest = mems.skip(1);
    assert(rest.last() == mems.last());
    reveal_with_fuel(written, 3);
    if !mems.last().contains_key(key) {
        if mems.len() == 2 {
            assert(mems.drop_last() =~= seq![mems[0]]);
            assert(rest.drop_last() =~= Seq::<Writes>::empty());
            assert(mems.drop_last().last() == mems[0]);
            assert(mems.drop_last().drop_last() =~= Seq::<Writes>::empty());
        } else {
            lemma_written_skip(mems.drop_last(), key);
            assert(mems.drop_last().skip(1) =~= rest.drop_last());
            assert(mems.drop_last()[0] == mems[0]);
        }
    }
}

/// What a lookup finds in a catalog with one more table at level 0: what
/// the new table holds, or else what the catalog held.
pub proof fn lemma_level0_push(levels: Seq<Seq<TableReader>>, table: TableReader, key: Seq<u8>)
    requires
        levels.len() > 0,
        all_wf(levels[0]),
        table.wf(),
    ensures
        catalog_lookup(levels.update(0, levels[0].push(table)), 0, key) == or_else(
            lookup(table.entries(), key),
            catalog_lookup(levels, 0, key),
        ),
{
    let after = levels.update(0, levels[0].push(table));
    let l0 = levels[0].push(table);
    assert forall|i: int| 0 <= i < l0.len() implies (#[trigger] l0[i]).wf() by {
        if i < levels[0].len() {
            assert(l0[i] == levels[0][i]);
        }
    }
    lemma_level0_lookup(l0, key);
    lemma_level0_lookup(levels[0], key);
    assert(l0.drop_last() =~= levels[0]);
    lemma_catalog_step(levels, 0, key);
    lemma_catalog_step(after, 0, key);
    lemma_catalog_tail(levels, after, 1, key);
}

/// What a lookup finds from a level on does not depend on the levels
/// before it.
pub proof fn lemma_catalog_tail(
    a: Seq<Seq<TableReader>>,
    b: Seq<Seq<TableReader>>,
    from: int,
    key: Seq<u8>,
)
    requires
        a.len() == b.len(),
        0 <= from,
        forall|l: int| from <= l < a.len() ==> a[l] == b[l],
    ensures
        catalog_lookup(a, from, key) == catalog_lookup(b, from, key),
    decreases a.len() - from,
{
    if from < a.len() {
        lemma_catalog_tail(a, b, from + 1, key);
    }
}

/// The number in the name of a table file, where the name holds one.
pub open spec fn table_number(t: TableReader) -> Option<usize> {
    name_number(vstd::utf8::encode_utf8(t.file_name_@))
}

/// A number is free: every table of the catalog whose file name holds a
/// number holds one below it, or the largest there is.
pub open spec fn above_tables(levels: Seq<Seq<TableReader>>, n: nat) -> bool {
    forall|l: int, i: int|
        0 <= l < levels.len() && 0 <= i < levels[l].len() ==> (table_number(
            #[trigger] levels[l][i],
        ) matches Some(k) ==> k < n || k == usize::MAX)
}

/// A number is one above the number of a table of the catalog, or the
/// largest there is and that of a table.
pub open spec fn follows_table(levels: Seq<Seq<TableReader>>, n: nat) -> bool {
    exists|l: int, i: int|
        0 <= l < levels.len() && 0 <= i < levels[l].len() && (table_number(
            #[trigger] levels[l][i],
        ) matches Some(k) && (k + 1 == n || (k == usize::MAX && n == usize::MAX)))
}

/// The least number that is free: one above the highest number in the
/// file names of the catalog's tables, at most `usize::MAX`; 0 where no
/// name holds a number.
pub fn first_free_number(readers: &SstableReader) -> (n: usize)
    ensures
        above_tables(readers.levels(), n as nat),
        n > 0 ==> follows_table(readers.levels(), n as nat),
{
    let mut n: usize = 0;
    let mut l: usize = 0;
    let count = readers.level_count();
    let ghost levels = readers.levels();
    while l < count
        invariant
            l <= count,
            count == levels.len(),
            levels == readers.levels(),
            n > 0 ==> follows_table(levels, n as nat),
            forall|a: int, i: int|
                0 <= a < l && 0 <= i < levels[a].len() ==> (table_number(
                    #[trigger] levels[a][i],
                ) matches Some(k) ==> k < n || k == usize::MAX),
        decreases count - l,
    {
        let level = readers.get_readers(l);
        let mut i: usize = 0;
        while i < level.len()
            invariant
                i <= level@.len(),
                l < count,
                count == levels.len(),
                level@ == levels[l as int],
                n > 0 ==> follows_table(levels, n as nat),
                forall|a: int, j: int|
                    0 <= a < l && 0 <= j < levels[a].len() ==> (table_number(
                        #[trigger] levels[a][j],
                    ) matches Some(k) ==> k < n || k == usize::MAX),
                forall|j: int|
                    0 <= j < i ==> (table_number(#[trigger] levels[l as int][j]) matches Some(k)
                        ==> k < n || k == usize::MAX),
            decreases level@.len() - i,
        {
            match file_number(level[i].file_name()) {
                Some(k) => {
                    if k >= n {
                        n = if k == usize::MAX {
                            k
                        } else {
                            k + 1
                        };
                        proof {
                            assert(table_number(levels[l as int][i as int]) == Some(k));
                        }
                    }
                },
                None => {},
            }
            i += 1;
        }
        l += 1;
    }
    n
}

/// A copy of a value that is there or not.
fn clone_value(v: &Option<Vec<u8>>) -> (r: Option<Vec<u8>>)
    ensures
        option_view(r) == option_view(*v),
{
    match v {
        Some(b) => Some(copy_range(b.as_slice(), 0, b.len())),
        None => None,
    }
}

impl Store {
    /// The store's invariant: that of its memtables and of its catalog,
    /// and every sealed memtable has its mark.
    pub closed spec fn wf(&self) -> bool {
        &&& self.memtable.wf()
        &&& forall|i: int| 0 <= i < self.sealed@.len() ==> (#[trigger] self.sealed@[i]).wf()
        &&& self.marks@.len() == self.sealed@.len()
        &&& self.readers.wf()
    }

    /// For each sealed memtable, the oldest first, the number of log
    /// segments that there were when it was sealed: the segments before
    /// that one hold no write of a memtable sealed later, nor of the
    /// memtable that takes the writes.
    pub closed spec fn marks(&self) -> Seq<usize> {
        self.marks@
    }

    /// The number of the next table file.
    pub closed spec fn next_table(&self) -> nat {
        self.next_table_num as nat
    }

    /// The options that the store was opened with.
    pub closed spec fn options(&self) -> Options {
        self.opt
    }

    /// What the memtables hold, the oldest sealed first, the memtable
    /// that takes the writes last.
    pub closed spec fn mems(&self) -> Seq<Writes> {
        Seq::new(self.sealed@.len(), |i: int| self.sealed@[i]@).push(self.memtable@)
    }

    /// The catalog.
    pub closed spec fn catalog(&self) -> SstableReader {
        self.readers
    }

    /// The write-ahead log.
    pub closed spec fn log(&self) -> WAL {
        self.wal
    }

    /// What the store holds under a key: what the memtables say of it,
    /// the newest first, else what the tables hold.
    pub open spec fn lookup(&self, key: Seq<u8>) -> Result<Option<Seq<u8>>, StatusCode> {
        match written(self.mems(), key) {
            Some(v) => Ok(v),
            None => stored_value(catalog_lookup(self.catalog().levels(), 0, key)),
        }
    }

    /// Opens a store on a log and a catalog: the log entries of the
    /// segments that are not deleted are applied to a new memtable, in
    /// their order.
    pub fn new(opt: Options, wal: WAL, readers: SstableReader) -> (s: Store)
        requires
            readers.wf(),
        ensures
            s.wf(),
            s.catalog() == readers,
            s.log() == wal,
            s.options() == opt,
            s.marks() == Seq::<usize>::empty(),
            s.mems() == seq![replay(Map::empty(), wal.entries_spec())],
            above_tables(readers.levels(), s.next_table()),
            s.next_table() > 0 ==> follows_table(readers.levels(), s.next_table()),
    {
        let next_table_num = first_free_number(&readers);
        let mut memtable = Memtable::new(opt.memtable_max_size, opt.memtable_max_height);
        let mut es = wal.entries();
        let ghost all = entries_view(es@);
        let ghost mut k: int = 0;
        proof {
            assert(all.take(0) =~= Seq::<EntryView>::empty());
        }
        while es.len() > 0
            invariant
                0 <= k <= all.len(),
                entries_view(es@) == all.skip(k),
                memtable.wf(),
                memtable@ == replay(Map::empty(), all.take(k)),
            decreases es@.len(),
        {
            let ghost es_before = es@;
            proof {
                assert(entries_view(es_before).len() == es_before.len());
                assert(all.skip(k).len() == all.len() - k);
            }
            let e = es.remove(0);
            proof {
                assert(entries_view(es_before)[0] == entry_view(e));
                assert(all.skip(k)[0] == all[k]);
                assert(all.take(k + 1).drop_last() =~= all.take(k));
                assert(all.take(k + 1).last() == all[k]);
                assert forall|i: int| 0 <= i < es@.len() implies entries_view(es@)[i] == all.skip(
                    k + 1,
                )[i] by {
                    assert(es@[i] == es_before[i + 1]);
                    assert(entries_view(es_before)[i + 1] == entry_view(es_before[i + 1]));
                    assert(all.skip(k)[i + 1] == all[k + 1 + i]);
                }
                assert(entries_view(es@) =~= all.skip(k + 1));
            }
            let (key, value) = e.kv();
            memtable.insert(key, value);
            proof {
                k = k + 1;
            }
        }
        proof {
            assert(all.take(all.len() as int) =~= all);
        }
        let s = Store {
            opt,
            wal,
            memtable,
            sealed: Vec::new(),
            marks: Vec::new(),
            readers,
            next_table_num,
        };
        proof {
            assert(s.mems() =~= seq![replay(Map::empty(), wal.entries_spec())]);
            assert(s.marks() =~= Seq::<usize>::empty());
        }
        s
    }

    /// Writes a value for a key: to the log first, then to the memtable.
    /// A memtable that is full is sealed. The store then holds the value
    /// under the key and what it held under every other key, and the log
    /// has one more entry. `InvalidData` where the log does not take the
    /// entry; the store is then as before.
    pub fn set(&mut self, key: Vec<u8>, payload: Vec<u8>) -> (r: MyResult<()>)
        requires
            old(self).wf(),
        ensures
            final(self).wf(),
            final(self).catalog() == old(self).catalog(),
            final(self).options() == old(self).options(),
            final(self).next_table() == old(self).next_table(),
            r is Ok <==> old(self).log().takes((key@, Some(payload@))),
            r is Ok ==> final(self).lookup(key@) == Ok::<Option<Seq<u8>>, StatusCode>(
                Some(payload@),
            ),
            r is Ok ==> forall|other: Seq<u8>|
                other != key@ ==> #[trigger] final(self).lookup(other) == old(self).lookup(other),
            r is Ok && old(self).log().clean() ==> final(self).log().entries_spec() == old(self).log().entries_spec().push((key@, Some(payload@))),
            r matches Err(s) ==> s.code == StatusCode::InvalidData && final(self).mems() == old(self).mems() && final(self).log() == old(self).log() && final(self).marks() == old(self).marks(),
    {
        self.write(key, Some(payload))
    }

    /// Deletes a key: writes to the log, then to the memtable, that the
    /// key has no value. The store then holds nothing under the key,
    /// whatever the tables hold, and what it held under every other key,
    /// and the log has one more entry. `InvalidData` where the log does
    /// not take the entry; the store is then as before.
    pub fn delete(&mut self, key: Vec<u8>) -> (r: MyResult<()>)
        requires
            old(self).wf(),
        ensures
            final(self).wf(),
            final(self).catalog() == old(self).catalog(),
            final(self).options() == old(self).options(),
            final(self).next_table() == old(self).next_table(),
            r is Ok <==> old(self).log().takes((key@, None)),
            r is Ok ==> final(self).lookup(key@) == Ok::<Option<Seq<u8>>, StatusCode>(None),
            r is Ok ==> forall|other: Seq<u8>|
                other != key@ ==> #[trigger] final(self).lookup(other) == old(self).lookup(other),
            r is Ok && old(self).log().clean() ==> final(self).log().entries_spec() == old(self).log().entries_spec().push((key@, None)),
            r matches Err(s) ==> s.code == StatusCode::InvalidData && final(self).mems() == old(self).mems() && final(self).log() == old(self).log() && final(self).marks() == old(self).marks(),
    {
        self.write(key, None)
    }

    /// Writes for a key a value, or that it has none: to the log first,
    /// then to the memtable, which is sealed where it is full and the log
    /// can start a segment.
    fn write(&mut self, key: Vec<u8>, value: Option<Vec<u8>>) -> (r: MyResult<()>)
        requires
            old(self).wf(),
        ensures
            final(self).wf(),
            final(self).catalog() == old(self).catalog(),
            final(self).options() == old(self).options(),
            final(self).next_table() == old(self).next_table(),
            r is Ok <==> old(self).log().takes((key@, option_view(value))),
            r is Ok ==> final(self).lookup(key@) == Ok::<Option<Seq<u8>>, StatusCode>(
                option_view(value),
            ),
            r is Ok ==> forall|other: Seq<u8>|
                other != key@ ==> #[trigger] final(self).lookup(other) == old(self).lookup(other),
            r is Ok && old(self).log().clean() ==> final(self).log().entries_spec() == old(self).log().entries_spec().push((key@, option_view(value))),
            r matches Err(s) ==> s.code == StatusCode::InvalidData && final(self).mems() == old(self).mems() && final(self).log() == old(self).log() && final(self).marks() == old(self).marks(),
    {
        let entry = LogEntry::new(key, value);
        match self.wal.append(&entry) {
            Ok(()) => {},
            Err(s) => {
                return Err(s);
            },
        }
        let ghost before = self.mems();
        let ghost sealed_before = Seq::new(self.sealed@.len(), |i: int| self.sealed@[i]@);
        let (key, value) = entry.kv();
        let ghost k = key@;
        let ghost v = option_view(value);
        self.memtable.insert(key, value);
        let ghost after = self.mems();
        proof {
            assert(after =~= sealed_before.push(before.last().insert(k, v)));
            assert(before =~= sealed_before.push(before.last()));
            assert(before.drop_last() =~= sealed_before);
            assert(after.drop_last() =~= sealed_before);
            assert(after.last() == before.last().insert(k, v));
            assert(written(after, k) == Some(v));
            assert forall|other: Seq<u8>| other != k implies written(after, other) == written(
                before,
                other,
            ) by {
                assert(after.last().contains_key(other) == before.last().contains_key(other));
            }
            assert(before == old(self).mems());
        }
        if self.memtable.is_full() {
            match self.seal() {
                Ok(()) => {
                    proof {
                        let sealed_now = self.mems();
                        assert(sealed_now.drop_last() =~= after);
                        assert(!sealed_now.last().contains_key(k));
                        assert forall|any: Seq<u8>| written(sealed_now, any) == written(
                            after,
                            any,
                        ) by {
                            assert(!sealed_now.last().contains_key(any));
                        }
                    }
                },
                Err(_) => {},
            }
        }
        Ok(())
    }

    /// Seals the memtable: it takes no more writes and waits to be
    /// flushed, an empty memtable takes its place, and the log starts a
    /// segment for the writes to come. What the store holds does not
    /// change. `InvalidData` where the file numbers of the log are used
    /// up; the store is then as before.
    pub fn seal(&mut self) -> (r: MyResult<()>)
        requires
            old(self).wf(),
        ensures
            final(self).wf(),
            final(self).catalog() == old(self).catalog(),
            final(self).options() == old(self).options(),
            final(self).next_table() == old(self).next_table(),
            r is Ok <==> old(self).log().current_file_num < usize::MAX,
            match r {
                Ok(()) => {
                    &&& final(self).mems() == old(self).mems().push(Map::empty())
                    &&& final(self).marks() == old(self).marks().push(old(self).log().segs.len())
                    &&& final(self).log().segs@.drop_last() == old(self).log().segs@
                    &&& final(self).log().segs@.len() == old(self).log().segs@.len() + 1
                    &&& final(self).log().segs@.last().data@ == Seq::<u8>::empty()
                    &&& !final(self).log().segs@.last().deleted_
                    &&& final(self).log().entries_spec() == old(self).log().entries_spec()
                },
                Err(s) => s.code == StatusCode::InvalidData && *final(self) == *old(self),
            },
    {
        let mark = self.wal.seg_count();
        match self.wal.new_seg() {
            Ok(()) => {},
            Err(s) => {
                return Err(s);
            },
        }
        proof {
            let segs = self.wal.segs@;
            lemma_live_push_empty(old(self).wal.segs@, segs[segs.len() - 1], 0);
            assert(segs =~= old(self).wal.segs@.push(segs[segs.len() - 1]));
        }
        let mut fresh = Memtable::new(self.opt.memtable_max_size, self.opt.memtable_max_height);
        core::mem::swap(&mut self.memtable, &mut fresh);
        let ghost sealed_before = self.sealed@;
        self.sealed.push(fresh);
        self.marks.push(mark);
        proof {
            assert forall|i: int| 0 <= i < self.sealed@.len() implies (
            #[trigger] self.sealed@[i]).wf() by {
                if i < sealed_before.len() {
                    assert(self.sealed@[i] == sealed_before[i]);
                    assert(old(self).sealed@[i].wf());
                }
            }
            assert(self.mems() =~= old(self).mems().push(Map::empty()));
        }
        Ok(())
    }

    /// The number of sealed memtables that wait to be flushed.
    pub fn sealed_count(&self) -> (n: usize)
        ensures
            n + 1 == self.mems().len(),
    {
        self.sealed.len()
    }

    /// What the store holds under a key: the value written last, or
    /// nothing where the key was deleted or never written. The memtable
    /// is asked first, then the sealed memtables from the newest to the
    /// oldest, then the tables. `InvalidData` where a table holds bytes
    /// under the key that stand for no value; else an error is that of
    /// reading a table.
    pub fn get(&self, key: &Vec<u8>) -> (r: MyResult<Option<Vec<u8>>>)
        requires
            self.wf(),
        ensures
            written(self.mems(), key@) is Some ==> r is Ok && option_view(r.unwrap()) == written(
                self.mems(),
                key@,
            ).unwrap(),
            self.catalog().tables_wf() ==> match r {
                Ok(v) => self.lookup(key@) == Ok::<Option<Seq<u8>>, StatusCode>(option_view(v)),
                Err(s) => self.lookup(key@) == Err::<Option<Seq<u8>>, StatusCode>(s.code),
            },
    {
        let ghost mems = self.mems();
        match self.memtable.get(key) {
            Some(v) => {
                return Ok(clone_value(v));
            },
            None => {},
        }
        let mut i: usize = self.sealed.len();
        proof {
            assert(mems.drop_last() =~= Seq::new(self.sealed@.len(), |j: int| self.sealed@[j]@));
            assert(mems.drop_last().take(i as int) =~= mems.drop_last());
        }
        while i > 0
            invariant
                i <= self.sealed@.len(),
                mems == self.mems(),
                mems.len() == self.sealed@.len() + 1,
                forall|j: int| 0 <= j < self.sealed@.len() ==> mems[j] == (
                #[trigger] self.sealed@[j])@,
                written(mems, key@) == written(mems.drop_last().take(i as int), key@),
            decreases i,
        {
            i -= 1;
            proof {
                let front = mems.drop_last().take(i + 1);
                assert(front.last() == self.sealed@[i as int]@);
                assert(front.drop_last() =~= mems.drop_last().take(i as int));
            }
            match self.sealed[i].get(key) {
                Some(v) => {
                    return Ok(clone_value(v));
                },
                None => {},
            }
        }
        match self.readers.get(key.as_slice()) {
            Err(s) => Err(s),
            Ok(None) => Ok(None),
            Ok(Some(bytes)) => match decode_value(bytes.as_slice()) {
                Some(v) => Ok(v),
                None => Err(Status::new(StatusCode::InvalidData, "stored value")),
            },
        }
    }

    /// The name of the next table file: the number of the next table
    /// with the ending of a table file. The number of the next table is
    /// then one more, unless it is the largest.
    fn next_table_name(&mut self) -> (name: String)
        ensures
            name@ == file_name_spec(old(self).next_table(), "sst"@),
            final(self).next_table() == (if old(self).next_table() < usize::MAX {
                old(self).next_table() + 1
            } else {
                old(self).next_table()
            }),
            final(self).wal == old(self).wal,
            final(self).memtable == old(self).memtable,
            final(self).sealed == old(self).sealed,
            final(self).marks == old(self).marks,
            final(self).readers == old(self).readers,
            final(self).opt == old(self).opt,
    {
        let n = self.next_table_num;
        if n < usize::MAX {
            self.next_table_num = n + 1;
        }
        make_file_name(n, "sst")
    }

    /// Flushes the oldest sealed memtable: builds its table under the
    /// name of the next table file, adds the table to level 0 and the
    /// manifest, and marks as deleted the log segments that were there
    /// when the memtable was sealed. Returns the name and the bytes of
    /// the table file, which is to be written, and the manifest after
    /// it, before the files of the segments are removed. `None` where no
    /// memtable waits, and where the oldest is empty, which is then
    /// dropped. `InvalidData` where a value has no bytes or the table
    /// has no room for the entries, `CompressError` where a block cannot
    /// be compressed; the memtables, the tables and the log are then as
    /// before.
    pub fn flush_sealed(&mut self) -> (r: MyResult<Option<(String, Vec<u8>)>>)
        requires
            old(self).wf(),
            old(self).catalog().levels().len() > 0,
        ensures
            final(self).wf(),
            final(self).options() == old(self).options(),
            final(self).next_table() == (if old(self).mems().len() > 1 && old(self).mems()[0].dom().len() > 0 && old(self).next_table() < usize::MAX {
                old(self).next_table() + 1
            } else {
                old(self).next_table()
            }),
            old(self).mems().len() == 1 ==> (r matches Ok(None)) && *final(self) == *old(self),
            old(self).mems().len() > 1 ==> ((r matches Ok(None)) <==> old(self).mems()[0].dom().len()
                == 0),
            old(self).mems().len() > 1 && writes_storable(old(self).mems()[0]) && old(self).options().table_opt().compress_type == CompressType::Uncompressed ==> r is Ok,
            r is Ok && old(self).mems().len() > 1 ==> final(self).mems() == old(self).mems().skip(
                1,
            ) && final(self).marks() == old(self).marks().skip(1) && final(self).log().segs@
                == truncated(
                old(self).log().segs@,
                live_before(old(self).log().segs@, old(self).marks()[0] as int),
            ),
            r matches Ok(Some((name, bytes))) ==> name@ == file_name_spec(
                old(self).next_table(),
                "sst"@,
            ) && crate::sstable::table_format::table_wf(bytes@) && lists(
                crate::sstable::table_format::table_entries(bytes@),
                old(self).mems()[0],
            ) && final(self).catalog().levels() == old(self).catalog().levels().update(
                0,
                old(self).catalog().levels()[0].push(final(self).catalog().levels()[0].last()),
            ) && final(self).catalog().levels()[0].len() == old(self).catalog().levels()[0].len()
                + 1 && final(self).catalog().levels()[0].last().file@ == bytes@ && final(self).catalog().levels()[0].last().file_name_@ == name@ && forall|key: Seq<u8>|
                crate::sstable::table_format::lookup(
                    crate::sstable::table_format::table_entries(bytes@),
                    key,
                ) == #[trigger] old(self).oldest_stored(key),
            r matches Ok(None) ==> final(self).catalog() == old(self).catalog(),
            r matches Err(s) ==> final(self).catalog() == old(self).catalog() && final(self).mems()
                == old(self).mems() && final(self).log() == old(self).log() && final(self).marks()
                == old(self).marks() && ((s.code == StatusCode::InvalidData && !writes_storable(
                old(self).mems()[0],
            )) || (s.code == StatusCode::CompressError && old(self).options().table_opt().compress_type == CompressType::Snappy)),
            r is Ok && old(self).catalog().tables_wf() ==> final(self).catalog().tables_wf()
                && forall|key: Seq<u8>| #[trigger]
                final(self).lookup(key) == old(self).lookup(key),
    {
        if self.sealed.len() == 0 {
            return Ok(None);
        }
        let ghost tables_ok = self.readers.tables_wf();
        proof {
            assert(self.sealed@[0].wf());
            assert(self.mems()[0] == self.sealed@[0]@);
        }
        if self.sealed[0].length() == 0 {
            let ghost mems_before = self.mems();
            let ghost sealed_before = self.sealed@;
            let gone = self.sealed.remove(0);
            let mark = self.marks.remove(0);
            let n = self.wal.count_live(mark);
            let _ = self.wal.truncate(n);
            proof {
                assert forall|i: int| 0 <= i < self.sealed@.len() implies (
                #[trigger] self.sealed@[i]).wf() by {
                    assert(self.sealed@[i] == sealed_before[i + 1]);
                    assert(sealed_before[i + 1].wf());
                }
                assert(self.mems() =~= mems_before.skip(1));
                assert(self.marks() =~= old(self).marks().skip(1));
                assert forall|key: Seq<u8>| #[trigger]
                    self.lookup(key) == old(self).lookup(key) by {
                    lemma_written_skip(mems_before, key);
                    if mems_before[0].contains_key(key) {
                        assert(mems_before[0].dom().contains(key));
                        gone.lemma_finite();
                        mems_before[0].dom().lemma_len0_is_empty();
                    }
                }
            }
            return Ok(None);
        }
        let name = self.next_table_name();
        let built = match self.sealed[0].build_sstable(&self.opt, name.as_str()) {
            Ok(b) => b,
            Err(s) => {
                return Err(s);
            },
        };
        let ghost sealed_before = self.sealed@;
        let ghost mems_before = self.mems();
        let gone = self.sealed.remove(0);
        let mark = self.marks.remove(0);
        proof {
            assert forall|i: int| 0 <= i < self.sealed@.len() implies (
            #[trigger] self.sealed@[i]).wf() by {
                assert(self.sealed@[i] == sealed_before[i + 1]);
                assert(sealed_before[i + 1].wf());
            }
            assert(self.mems() =~= mems_before.skip(1));
            assert(self.marks() =~= old(self).marks().skip(1));
        }
        let n = self.wal.count_live(mark);
        let _ = self.wal.truncate(n);
        let ghost oldest = mems_before[0];
        proof {
            assert(oldest == sealed_before[0]@);
        }
        match built {
            None => Ok(None),
            Some((name, bytes, reader)) => {
                let ghost lv0 = self.readers.levels()[0];
                let ghost levels = self.readers.levels();
                let _ = self.readers.add(0, reader);
                proof {
                    reveal_with_fuel(crate::sstable_reader::add_all, 2);
                    assert(seq![reader].skip(1) =~= Seq::empty());
                    assert(self.readers.levels()[0] == lv0.push(reader));
                    assert(self.readers.levels() =~= levels.update(0, lv0.push(reader)));
                    if tables_ok {
                        assert forall|i: int| 0 <= i < lv0.len() implies (#[trigger] lv0[i]).wf() by {
                            assert(old(self).readers.levels()[0][i].wf());
                        }
                        assert forall|key: Seq<u8>| #[trigger]
                            self.lookup(key) == old(self).lookup(key) by {
                            lemma_written_skip(mems_before, key);
                            lemma_level0_push(levels, reader, key);
                            assert(lookup(reader.entries(), key) == gone.stored(key));
                            if oldest.contains_key(key) {
                                assert(gone.wf());
                                gone.lemma_value_len(key);
                                lemma_option_roundtrip(oldest[key], Seq::empty());
                                assert(option_encoding(oldest[key]) + Seq::<u8>::empty()
                                    =~= option_encoding(oldest[key]));
                            }
                        }
                    }
                }
                Ok(Some((name, bytes)))
            },
        }
    }

    /// What the table of the oldest sealed memtable holds under a key.
    pub closed spec fn oldest_stored(&self, key: Seq<u8>) -> Option<Seq<u8>> {
        self.sealed@[0].stored(key)
    }

    /// The levels that ask for compaction, the most pressing first.
    pub fn compute_compaction_levels(&self) -> (res: Vec<usize>)
        requires
            self.wf(),
            self.catalog().options().l0_compaction_trigger > 0,
            forall|l: int|
                1 <= l < self.catalog().levels().len() ==> crate::sstable_reader::level_size(
                    #[trigger] self.catalog().levels()[l],
                ) <= u64::MAX,
        ensures
            forall|k: int|
                0 <= k < res@.len() ==> (#[trigger] res@[k]) < self.catalog().levels().len()
                    && crate::sstable_reader::needs_compaction(
                    self.catalog().levels(),
                    self.catalog().options().l0_compaction_trigger as nat,
                    res@[k] as int,
                ),
            forall|l: int|
                0 <= l < self.catalog().levels().len() && crate::sstable_reader::needs_compaction(
                    self.catalog().levels(),
                    self.catalog().options().l0_compaction_trigger as nat,
                    l,
                ) ==> exists|k: int| 0 <= k < res@.len() && #[trigger] res@[k] == l,
            forall|a: int, b: int|
                0 <= a < b < res@.len() ==> crate::sstable_reader::comes_before(
                    self.catalog().levels(),
                    self.catalog().options().l0_compaction_trigger as nat,
                    (#[trigger] res@[a]) as int,
                    (#[trigger] res@[b]) as int,
                ),
    {
        self.readers.compute_compaction_levels()
    }

    /// Compacts a level of the catalog into the level below, as
    /// `compaction::compact` does, into a table under the name of the
    /// next table file. What the store holds does not change; neither do
    /// the memtables nor the log.
    pub fn compact(&mut self, level: usize) -> (r: MyResult<Option<(String, Vec<u8>, Vec<String>)>>)
        requires
            old(self).wf(),
            level + 1 < old(self).catalog().levels().len(),
        ensures
            final(self).wf(),
            final(self).mems() == old(self).mems(),
            final(self).log() == old(self).log(),
            final(self).marks() == old(self).marks(),
            final(self).options() == old(self).options(),
            final(self).catalog().options() == old(self).catalog().options(),
            final(self).next_table() == (if old(self).next_table() < usize::MAX {
                old(self).next_table() + 1
            } else {
                old(self).next_table()
            }),
            match r {
                Ok(Some((name, bytes, obsolete))) => {
                    &&& name@ == file_name_spec(old(self).next_table(), "sst"@)
                    &&& crate::sstable::table_format::table_wf(bytes@)
                    &&& names_view(obsolete@) == level_names(
                        old(self).catalog().levels()[level as int],
                    ) + level_names(old(self).catalog().levels()[level + 1])
                    &&& final(self).catalog().levels() == compacted(
                        old(self).catalog().levels(),
                        level as int,
                        final(self).catalog().levels()[level + 1][0],
                    )
                    &&& final(self).catalog().levels()[level + 1][0].file@ == bytes@
                    &&& final(self).catalog().levels()[level + 1][0].file_name_@ == name@
                    &&& compactable(old(self).catalog(), level as int)
                        ==> crate::sstable::table_format::table_entries(bytes@) == compaction_run(
                        old(self).catalog().levels(),
                        level as int,
                    )
                },
                Ok(None) => final(self).catalog() == old(self).catalog(),
                Err(s) => final(self).catalog() == old(self).catalog() && (s.code
                    == StatusCode::InvalidData || s.code == StatusCode::CompressError),
            },
            compactable(old(self).catalog(), level as int) ==> ((r matches Ok(None))
                <==> compaction_run(old(self).catalog().levels(), level as int).len() == 0),
            compactable(old(self).catalog(), level as int) && table_fits(
                compaction_run(old(self).catalog().levels(), level as int),
            ) && old(self).catalog().options().table_opt().compress_type
                == CompressType::Uncompressed ==> r is Ok,
            compactable(old(self).catalog(), level as int) ==> (r matches Err(s) ==> (s.code
                == StatusCode::InvalidData && !table_fits(
                compaction_run(old(self).catalog().levels(), level as int),
            )) || (s.code == StatusCode::CompressError && old(self).catalog().options().table_opt().compress_type == CompressType::Snappy)),
            r is Ok && compactable(old(self).catalog(), level as int) ==> final(self).catalog().tables_wf() && forall|key: Seq<u8>| #[trigger]
                final(self).lookup(key) == old(self).lookup(key),
            !(r matches Ok(Some(_))) ==> final(self).catalog().levels() == old(self).catalog().levels(),
    {
        let name = self.next_table_name();
        let r = compact(&mut self.readers, level, name.as_str());
        r
    }

    /// Whether the manifest has changed since it was last taken for
    /// writing; it counts as written from now on.
    pub fn take_manifest_dirty(&mut self) -> (d: bool)
        requires
            old(self).wf(),
        ensures
            final(self).wf(),
            d == old(self).catalog().manifest().dirty(),
            !final(self).catalog().manifest().dirty(),
            final(self).catalog().manifest()@ == old(self).catalog().manifest()@,
            final(self).catalog().levels() == old(self).catalog().levels(),
            final(self).mems() == old(self).mems(),
    {
        self.readers.manifest_builder_mut().take_dirty()
    }

    /// The catalog of the store's tables.
    pub fn readers(&self) -> (r: &SstableReader)
        ensures
            *r == self.catalog(),
    {
        &self.readers
    }

    /// The write-ahead log of the store.
    pub fn wal(&self) -> (w: &WAL)
        ensures
            *w == self.log(),
    {
        &self.wal
    }
}

} // verus!
