//! The write-ahead log: segments of records, one record for each
//! mutation. A record is the length of its body as a varint and the body,
//! the bincode encoding of a log entry.

use crate::coding::{
    get_varint, lemma_varint_decode_agree, lemma_varint_encoding_len_u64, lemma_varint_len_bound,
    lemma_varint_roundtrip, lemma_varint_truncated, put_varint, varint_decode, varint_encoding,
    varint_len,
};
use crate::options::Options;
use crate::parser::{digits, digits_value, run_end, scan, Class};
use crate::record::{
    decode_entry, encode_entry, entry_decode, entry_encoding, lemma_entry_roundtrip, option_view,
};
use crate::sstable::result::{MyResult, Status, StatusCode};
use crate::sstable::block_format::keys_ascend;
use crate::sstable::options::CompressType;
use crate::sstable::table_builder::{lemma_weight_take, table_fits, TableBuilder};
use crate::sstable::table_format::{table_entries, table_wf};
use crate::sstable::table_reader::TableReader;
use crate::record::{encode_value, entry_bytes, option_encoding, value_bytes};
use crate::util::{
    bytes_lt, copy_range, extend_from, file_name_spec, lex_lt, make_file_name, name_lt, string_lt,
};
use vstd::prelude::*;
use vstd::slice::slice_subrange;

verus! {

/// A mutation: a key and its new value, or no value where the key is
/// deleted.
#[derive(Debug, PartialEq, Clone)]
pub struct LogEntry<K, V> {
    pub k: K,
    pub v: Option<V>,
}

impl<K, V> LogEntry<K, V> {
    pub fn new(k: K, v: Option<V>) -> (e: LogEntry<K, V>)
        ensures
            e.k == k,
            e.v == v,
    {
        LogEntry { k, v }
    }

    pub fn key(&self) -> (k: &K)
        ensures
            *k == self.k,
    {
        &self.k
    }

    pub fn value(&self) -> (v: &Option<V>)
        ensures
            *v == self.v,
    {
        &self.v
    }

    pub fn kv(self) -> (r: (K, Option<V>))
        ensures
            r.0 == self.k,
            r.1 == self.v,
    {
        (self.k, self.v)
    }
}

/// A key and a value that is there or not, as the contracts speak of a
/// log entry.
pub type EntryView = (Seq<u8>, Option<Seq<u8>>);

/// What a log entry of byte strings holds.
pub open spec fn entry_view(e: LogEntry<Vec<u8>, Vec<u8>>) -> EntryView {
    (e.k@, option_view(e.v))
}

/// What a list of log entries holds.
pub open spec fn entries_view(es: Seq<LogEntry<Vec<u8>, Vec<u8>>>) -> Seq<EntryView> {
    Seq::new(es.len(), |i: int| entry_view(es[i]))
}

/// A record: the length of its body as a varint, then the body.
pub open spec fn record_frame(body: Seq<u8>) -> Seq<u8> {
    varint_encoding(body.len()) + body
}

/// The record of a log entry.
pub open spec fn entry_record(e: EntryView) -> Seq<u8> {
    record_frame(entry_encoding(e.0, e.1))
}

/// The log entry whose record starts at `off`, and where the record
/// ends; `None` where no whole record of a log entry starts there.
#[verifier::opaque]
pub open spec fn wal_next(data: Seq<u8>, off: int) -> Option<(EntryView, int)> {
    if off < 0 || off >= data.len() {
        None
    } else {
        match varint_decode(data.subrange(off, data.len() as int)) {
            None => None,
            Some((n, used)) => if off + used + n <= data.len() {
                match entry_decode(data.subrange(off + used, off + used + n)) {
                    Some(e) => Some((e, off + used + n)),
                    None => None,
                }
            } else {
                None
            },
        }
    }
}

/// The log entries of a segment from `off` on, up to the first place
/// where no whole record starts.
pub open spec fn wal_entries(data: Seq<u8>, off: int) -> Seq<EntryView>
    decreases data.len() - off,
{
    match wal_next(data, off) {
        None => Seq::empty(),
        Some((e, next)) => if off < next <= data.len() {
            seq![e] + wal_entries(data, next)
        } else {
            Seq::empty()
        },
    }
}

/// Where reading a segment from `off` on stops.
pub open spec fn wal_end(data: Seq<u8>, off: int) -> int
    decreases data.len() - off,
{
    match wal_next(data, off) {
        None => off,
        Some((e, next)) => if off < next <= data.len() {
            wal_end(data, next)
        } else {
            off
        },
    }
}

/// The segment holds whole records only.
pub open spec fn wal_clean(data: Seq<u8>) -> bool {
    wal_end(data, 0) == data.len()
}

/// A record that was read ends behind its start and inside the segment.
pub proof fn lemma_wal_next_bounds(data: Seq<u8>, off: int)
    ensures
        wal_next(data, off) matches Some((e, next)) ==> off < next <= data.len(),
{
    reveal(wal_next);
    if 0 <= off < data.len() {
        lemma_varint_len_bound(data.subrange(off, data.len() as int));
    }
}

/// A record that was read is read again, and the same, when bytes are
/// appended to the segment.
pub proof fn lemma_wal_next_grow(data: Seq<u8>, extra: Seq<u8>, off: int)
    requires
        wal_next(data, off) is Some,
    ensures
        wal_next(data + extra, off) == wal_next(data, off),
{
    reveal(wal_next);
    let d2 = data + extra;
    let s1 = data.subrange(off, data.len() as int);
    let s2 = d2.subrange(off, d2.len() as int);
    lemma_varint_len_bound(s1);
    let used = varint_len(s1).unwrap();
    assert forall|k: int| 0 <= k < used implies s1[k] == s2[k] by {}
    lemma_varint_decode_agree(s1, s2);
    let n = varint_decode(s1).unwrap().0 as int;
    assert(d2.subrange(off + used, off + used + n) =~= data.subrange(off + used, off + used + n));
}

/// The record of an entry at the end of a segment is read as that entry.
pub proof fn lemma_wal_next_record(data: Seq<u8>, e: EntryView)
    requires
        e.0.len() <= u64::MAX,
        e.1 matches Some(b) ==> b.len() <= u64::MAX,
        entry_encoding(e.0, e.1).len() <= u64::MAX,
    ensures
        wal_next(data + entry_record(e), data.len() as int) == Some(
            (e, (data + entry_record(e)).len() as int),
        ),
{
    reveal(wal_next);
    let rec = entry_record(e);
    let body = entry_encoding(e.0, e.1);
    let d2 = data + rec;
    let off = data.len() as int;
    let s2 = d2.subrange(off, d2.len() as int);
    assert(s2 =~= varint_encoding(body.len()) + body);
    lemma_varint_roundtrip(body.len() as u64, body);
    lemma_varint_encoding_len_u64(body.len() as u64);
    let used = varint_encoding(body.len()).len() as int;
    assert(d2.subrange(off + used, off + used + body.len()) =~= body);
    assert(body + Seq::<u8>::empty() =~= body);
    lemma_entry_roundtrip(e.0, e.1, Seq::empty());
}

/// No record is read where only the start of one was written.
pub proof fn lemma_wal_next_truncated(data: Seq<u8>, e: EntryView, k: int)
    requires
        e.0.len() <= u64::MAX,
        e.1 matches Some(b) ==> b.len() <= u64::MAX,
        entry_encoding(e.0, e.1).len() <= u64::MAX,
        0 <= k < entry_record(e).len(),
    ensures
        wal_next(data + entry_record(e).take(k), data.len() as int) is None,
{
    reveal(wal_next);
    let rec = entry_record(e);
    let body = entry_encoding(e.0, e.1);
    let tail = rec.take(k);
    let d2 = data + tail;
    let off = data.len() as int;
    let head = varint_encoding(body.len());
    lemma_varint_encoding_len_u64(body.len() as u64);
    let s2 = d2.subrange(off, d2.len() as int);
    assert(s2 =~= tail);
    if k < head.len() {
        assert(tail =~= head.take(k));
        lemma_varint_truncated(body.len() as u64, k);
    } else if k > 0 {
        assert(tail =~= head + body.take(k - head.len()));
        lemma_varint_roundtrip(body.len() as u64, body.take(k - head.len()));
    }
}

/// WAL durability: behind whole records, the record of an entry adds
/// that entry to what is read back, and nothing else.
pub proof fn lemma_wal_append(data: Seq<u8>, off: int, e: EntryView)
    requires
        0 <= off <= data.len(),
        wal_end(data, off) == data.len(),
        e.0.len() <= u64::MAX,
        e.1 matches Some(b) ==> b.len() <= u64::MAX,
        entry_encoding(e.0, e.1).len() <= u64::MAX,
    ensures
        wal_entries(data + entry_record(e), off) == wal_entries(data, off).push(e),
        wal_end(data + entry_record(e), off) == (data + entry_record(e)).len(),
    decreases data.len() - off,
{
    let rec = entry_record(e);
    let d2 = data + rec;
    lemma_wal_next_bounds(data, off);
    lemma_wal_next_bounds(d2, off);
    if off == data.len() {
        lemma_wal_next_record(data, e);
        lemma_wal_next_bounds(data, off);
        lemma_wal_next_bounds(d2, d2.len() as int);
        assert(wal_next(data, off) is None) by {
            reveal(wal_next);
        }
        assert(wal_next(d2, d2.len() as int) is None) by {
            reveal(wal_next);
        }
        assert(wal_entries(data, off) =~= Seq::<EntryView>::empty());
        assert(wal_entries(d2, d2.len() as int) =~= Seq::<EntryView>::empty());
        assert(wal_entries(d2, off) =~= seq![e]);
        assert(wal_end(d2, d2.len() as int) == d2.len());
        assert(wal_end(d2, off) == wal_end(d2, d2.len() as int));
    } else {
        let (first, next) = wal_next(data, off).unwrap();
        lemma_wal_next_grow(data, rec, off);
        lemma_wal_append(data, next, e);
        assert(wal_end(d2, off) == wal_end(d2, next));
        assert(wal_entries(d2, off) =~= seq![first] + wal_entries(d2, next));
        assert(seq![first] + wal_entries(data, next).push(e) =~= (seq![first] + wal_entries(
            data,
            next,
        )).push(e));
    }
}

/// WAL durability: behind whole records, the start of a record that was
/// not written to its end is dropped when the segment is read back.
pub proof fn lemma_wal_partial_tail(data: Seq<u8>, off: int, e: EntryView, k: int)
    requires
        0 <= off <= data.len(),
        wal_end(data, off) == data.len(),
        e.0.len() <= u64::MAX,
        e.1 matches Some(b) ==> b.len() <= u64::MAX,
        entry_encoding(e.0, e.1).len() <= u64::MAX,
        0 <= k < entry_record(e).len(),
    ensures
        wal_entries(data + entry_record(e).take(k), off) == wal_entries(data, off),
    decreases data.len() - off,
{
    let tail = entry_record(e).take(k);
    let d2 = data + tail;
    lemma_wal_next_bounds(data, off);
    if off == data.len() {
        lemma_wal_next_truncated(data, e, k);
        assert(wal_next(data, off) is None) by {
            reveal(wal_next);
        }
        assert(wal_entries(data, off) =~= Seq::<EntryView>::empty());
    } else {
        let (first, next) = wal_next(data, off).unwrap();
        lemma_wal_next_grow(data, tail, off);
        lemma_wal_partial_tail(data, next, e, k);
    }
}

/// A segment of the log.
#[derive(Debug)]
pub struct WALSeg {
    pub file_name: String,
    pub data: Vec<u8>,
    pub deleted_: bool,
}

/// A cursor over the records of a segment.
pub struct WALSegIter<'a> {
    pub data: &'a [u8],
    pub offset: usize,
}

impl<'a> WALSegIter<'a> {
    /// A cursor at the start of a segment's bytes.
    pub fn new(data: &'a [u8]) -> (it: WALSegIter<'a>)
        ensures
            it.data@ == data@,
            it.offset == 0,
    {
        WALSegIter { data, offset: 0 }
    }

    /// The size of the segment.
    pub fn file_size(&self) -> (n: usize)
        ensures
            n == self.data@.len(),
    {
        self.data.len()
    }

    /// The log entries that are still to come.
    pub open spec fn remaining(&self) -> Seq<EntryView> {
        wal_entries(self.data@, self.offset as int)
    }

    /// The next log entry. `None` at the end of the segment, and where
    /// no whole record follows: a record that was not written to its end
    /// is dropped.
    pub fn next(&mut self) -> (r: Option<LogEntry<Vec<u8>, Vec<u8>>>)
        ensures
            final(self).data == old(self).data,
            match r {
                Some(e) => wal_next(old(self).data@, old(self).offset as int) == Some(
                    (entry_view(e), final(self).offset as int),
                ) && old(self).remaining() == seq![entry_view(e)] + final(self).remaining(),
                None => wal_next(old(self).data@, old(self).offset as int) is None && final(self).offset == old(self).offset && old(self).remaining().len() == 0,
            },
    {
        let len = self.data.len();
        proof {
            reveal(wal_next);
            lemma_wal_next_bounds(self.data@, self.offset as int);
        }
        if self.offset >= len {
            return None;
        }
        let (n, body_start) = match get_varint(self.data, self.offset, len) {
            Some(x) => x,
            None => {
                return None;
            },
        };
        if n > (len - body_start) as u64 {
            return None;
        }
        let body_end = body_start + n as usize;
        match decode_entry(slice_subrange(self.data, body_start, body_end)) {
            Some((k, v)) => {
                self.offset = body_end;
                Some(LogEntry { k, v })
            },
            None => None,
        }
    }
}

impl WALSeg {
    /// An empty segment.
    pub fn new(file_name: String) -> (s: WALSeg)
        ensures
            s.file_name == file_name,
            s.data@ == Seq::<u8>::empty(),
            !s.deleted_,
    {
        WALSeg { file_name, data: Vec::new(), deleted_: false }
    }

    /// A segment with the bytes that its file holds.
    pub fn with_data(file_name: String, data: Vec<u8>) -> (s: WALSeg)
        ensures
            s.file_name == file_name,
            s.data == data,
            !s.deleted_,
    {
        WALSeg { file_name, data, deleted_: false }
    }

    /// Whether the segment was deleted.
    pub fn deleted(&self) -> (d: bool)
        ensures
            d == self.deleted_,
    {
        self.deleted_
    }

    /// A cursor at the start of the segment.
    pub fn iter(&self) -> (it: WALSegIter<'_>)
        ensures
            it.data@ == self.data@,
            it.offset == 0,
            it.remaining() == self.entries_spec(),
    {
        WALSegIter::new(self.data.as_slice())
    }

    /// The size of the segment.
    pub fn file_size(&self) -> (n: usize)
        ensures
            n == self.data@.len(),
    {
        self.data.len()
    }

    /// The log entries of the segment.
    pub open spec fn entries_spec(&self) -> Seq<EntryView> {
        wal_entries(self.data@, 0)
    }

    /// Appends the record of a log entry. Fails where the entry has no
    /// bytes; the segment is then as before.
    pub fn append(&mut self, entry: &LogEntry<Vec<u8>, Vec<u8>>) -> (r: MyResult<()>)
        ensures
            final(self).file_name == old(self).file_name,
            final(self).deleted_ == old(self).deleted_,
            r is Ok <==> entry_bytes(entry.k@, option_view(entry.v)) is Some,
            match r {
                Ok(()) => final(self).data@ == old(self).data@ + entry_record(entry_view(*entry))
                    && entry_encoding(entry.k@, option_view(entry.v)).len() <= usize::MAX,
                Err(s) => final(self).data@ == old(self).data@ && s.code
                    == StatusCode::InvalidData,
            },
    {
        let encoded = encode_entry(&entry.k, &entry.v);
        proof {
            if encoded is Some {
                assert(encoded.unwrap()@.len() == encoded.unwrap().len());
            }
        }
        self.append_encoded(encoded)
    }

    /// Appends a record with the given body; fails where there is none.
    pub fn append_encoded(&mut self, encoded: Option<Vec<u8>>) -> (r: MyResult<()>)
        ensures
            final(self).file_name == old(self).file_name,
            final(self).deleted_ == old(self).deleted_,
            match encoded {
                Some(body) => r is Ok && final(self).data@ == old(self).data@ + record_frame(
                    body@,
                ),
                None => r matches Err(s) && s.code == StatusCode::InvalidData && final(self).data@ == old(self).data@,
            },
    {
        match encoded {
            Some(body) => {
                put_varint(&mut self.data, body.len() as u64);
                extend_from(&mut self.data, body.as_slice());
                assert(self.data@ =~= old(self).data@ + record_frame(body@));
                Ok(())
            },
            None => Err(Status::new(StatusCode::InvalidData, "log entry cannot be encoded")),
        }
    }

    /// Marks the segment deleted; its file can then be removed.
    pub fn delete(&mut self) -> (r: MyResult<()>)
        ensures
            r is Ok,
            final(self).deleted_,
            final(self).data == old(self).data,
            final(self).file_name == old(self).file_name,
    {
        self.deleted_ = true;
        Ok(())
    }

    /// The log entries of the segment, in order.
    pub fn entries(&self) -> (es: Vec<LogEntry<Vec<u8>, Vec<u8>>>)
        ensures
            entries_view(es@) == self.entries_spec(),
    {
        let mut out: Vec<LogEntry<Vec<u8>, Vec<u8>>> = Vec::new();
        let mut it = self.iter();
        loop
            invariant
                it.data@ == self.data@,
                it.offset <= self.data@.len(),
                self.entries_spec() == entries_view(out@) + it.remaining(),
            ensures
                entries_view(out@) == self.entries_spec(),
            decreases self.data@.len() - it.offset,
        {
            proof {
                lemma_wal_next_bounds(it.data@, it.offset as int);
            }
            let ghost before = out@;
            let ghost rest = it.remaining();
            match it.next() {
                Some(e) => {
                    out.push(e);
                    proof {
                        assert(entries_view(out@) =~= entries_view(before).push(entry_view(e)));
                        assert(entries_view(before) + (seq![entry_view(e)] + it.remaining())
                            =~= entries_view(out@) + it.remaining());
                    }
                },
                None => {
                    proof {
                        assert(entries_view(out@) + rest =~= entries_view(out@));
                    }
                    break ;
                },
            }
        }
        out
    }
}

/// The segments are in the order of their file names.
pub open spec fn sorted_by_name(s: Seq<WALSeg>) -> bool {
    forall|i: int, j: int|
        0 <= i < j < s.len() ==> !name_lt((#[trigger] s[j]).file_name@, (#[trigger] s[i]).file_name@)
}

/// Where a segment goes into a sorted run: behind the last segment whose
/// name is not above its own.
pub open spec fn seg_pos(s: Seq<WALSeg>, x: WALSeg) -> int
    decreases s.len(),
{
    if s.len() == 0 {
        0
    } else if name_lt(x.file_name@, s.last().file_name@) {
        seg_pos(s.drop_last(), x)
    } else {
        s.len() as int
    }
}

/// The segments sorted by file name; segments with the same name keep
/// their order.
pub open spec fn sort_by_name(s: Seq<WALSeg>) -> Seq<WALSeg>
    decreases s.len(),
{
    if s.len() == 0 {
        Seq::empty()
    } else {
        sort_by_name(s.drop_last()).insert(seg_pos(sort_by_name(s.drop_last()), s.last()), s.last())
    }
}

/// The place of a segment in a run is inside the run or at its end.
pub proof fn lemma_seg_pos(s: Seq<WALSeg>, x: WALSeg)
    ensures
        0 <= seg_pos(s, x) <= s.len(),
    decreases s.len(),
{
    if s.len() > 0 {
        lemma_seg_pos(s.drop_last(), x);
    }
}

/// Sorting keeps the number of segments.
pub proof fn lemma_sort_by_name_len(s: Seq<WALSeg>)
    ensures
        sort_by_name(s).len() == s.len(),
    decreases s.len(),
{
    if s.len() > 0 {
        lemma_sort_by_name_len(s.drop_last());
        lemma_seg_pos(sort_by_name(s.drop_last()), s.last());
    }
}

/// Sorts segments by file name.
#[verifier::rlimit(40)]
pub fn sort_segs(segs: &mut Vec<WALSeg>)
    ensures
        final(segs)@ == sort_by_name(old(segs)@),
        final(segs)@.len() == old(segs)@.len(),
{
    let ghost orig = segs@;
    let n = segs.len();
    let mut i: usize = 0;
    proof {
        assert(orig.take(0) =~= Seq::<WALSeg>::empty());
        assert(orig.skip(0) =~= orig);
        lemma_sort_by_name_len(orig);
    }
    while i < n
        invariant
            i <= n,
            n == orig.len(),
            segs@ == sort_by_name(orig.take(i as int)) + orig.skip(i as int),
        decreases n - i,
    {
        let ghost done = sort_by_name(orig.take(i as int));
        proof {
            lemma_sort_by_name_len(orig.take(i as int));
        }
        let x = segs.remove(i);
        assert(x == orig[i as int]);
        assert(segs@ =~= done + orig.skip(i + 1));
        assert(done.take(i as int) =~= done);
        let mut p: usize = i;
        while p > 0 && string_lt(&x.file_name, &segs[p - 1].file_name)
            invariant
                p <= i,
                i == done.len(),
                segs@ == done + orig.skip(i + 1),
                seg_pos(done, x) == seg_pos(done.take(p as int), x),
            decreases p,
        {
            proof {
                assert(done.take(p as int).last() == segs@[p - 1]);
                assert(done.take(p as int).drop_last() =~= done.take(p - 1));
            }
            p -= 1;
        }
        proof {
            if p > 0 {
                assert(done.take(p as int).last() == segs@[p - 1]);
            }
            assert(seg_pos(done, x) == p);
        }
        segs.insert(p, x);
        proof {
            assert(orig.take(i + 1).drop_last() =~= orig.take(i as int));
            assert(orig.take(i + 1).last() == x);
            assert(segs@ =~= done.insert(p as int, x) + orig.skip(i + 1));
        }
        i += 1;
    }
    proof {
        assert(orig.take(n as int) =~= orig);
        assert(segs@ =~= sort_by_name(orig));
    }
}

/// The log entries of the segments from `from` on that are not deleted,
/// segment by segment.
pub open spec fn live_entries(segs: Seq<WALSeg>, from: int) -> Seq<EntryView>
    decreases segs.len() - from,
{
    if from < 0 || from >= segs.len() {
        Seq::empty()
    } else if segs[from].deleted_ {
        live_entries(segs, from + 1)
    } else {
        wal_entries(segs[from].data@, 0) + live_entries(segs, from + 1)
    }
}

/// The first segment that is not deleted; the number of segments where
/// all are.
pub open spec fn first_live(segs: Seq<WALSeg>, from: int) -> int
    decreases segs.len() - from,
{
    if from < 0 || from >= segs.len() {
        segs.len() as int
    } else if !segs[from].deleted_ {
        from
    } else {
        first_live(segs, from + 1)
    }
}

/// The number of segments before segment `mark` that are not deleted.
pub open spec fn live_before(segs: Seq<WALSeg>, mark: int) -> nat
    decreases mark,
{
    if mark <= 0 {
        0
    } else if mark - 1 < segs.len() && !segs[mark - 1].deleted_ {
        live_before(segs, mark - 1) + 1
    } else {
        live_before(segs, mark - 1)
    }
}

/// Beyond the last segment nothing more is counted.
pub proof fn lemma_live_before_end(segs: Seq<WALSeg>, i: int, mark: int)
    requires
        0 <= i <= mark,
        i == mark || i >= segs.len(),
    ensures
        live_before(segs, mark) == live_before(segs, i),
    decreases mark - i,
{
    if i < mark {
        lemma_live_before_end(segs, i, mark - 1);
    }
}

/// The segments with the first that is not deleted marked deleted.
pub open spec fn consumed(segs: Seq<WALSeg>) -> Seq<WALSeg> {
    let i = first_live(segs, 0);
    if i < segs.len() {
        segs.update(
            i,
            WALSeg { file_name: segs[i].file_name, data: segs[i].data, deleted_: true },
        )
    } else {
        segs
    }
}

/// The segments with the first `n` that are not deleted marked deleted.
pub open spec fn truncated(segs: Seq<WALSeg>, n: nat) -> Seq<WALSeg>
    decreases n,
{
    if n == 0 {
        segs
    } else {
        truncated(consumed(segs), (n - 1) as nat)
    }
}

/// The log entries of the segments with one more record at the end of the
/// last segment, which holds whole records only and is not deleted: the
/// entries so far and the new entry.
pub proof fn lemma_live_append(segs: Seq<WALSeg>, from: int, last: WALSeg, e: EntryView)
    requires
        segs.len() > 0,
        0 <= from < segs.len(),
        !segs[segs.len() - 1].deleted_,
        wal_clean(segs[segs.len() - 1].data@),
        !last.deleted_,
        last.data@ == segs[segs.len() - 1].data@ + entry_record(e),
        e.0.len() <= u64::MAX,
        e.1 matches Some(b) ==> b.len() <= u64::MAX,
        entry_encoding(e.0, e.1).len() <= u64::MAX,
    ensures
        live_entries(segs.update(segs.len() - 1, last), from) == live_entries(segs, from).push(e),
    decreases segs.len() - from,
{
    let s2 = segs.update(segs.len() - 1, last);
    if from == segs.len() - 1 {
        lemma_wal_append(segs[from].data@, 0, e);
        assert(live_entries(segs, from + 1) =~= Seq::<EntryView>::empty());
        assert(live_entries(s2, from + 1) =~= Seq::<EntryView>::empty());
        assert(live_entries(s2, from) =~= wal_entries(last.data@, 0));
        assert(live_entries(segs, from) =~= wal_entries(segs[from].data@, 0));
    } else {
        lemma_live_append(segs, from + 1, last, e);
        assert(s2[from] == segs[from]);
        if !segs[from].deleted_ {
            assert(wal_entries(segs[from].data@, 0) + live_entries(segs, from + 1).push(e) =~= (
            wal_entries(segs[from].data@, 0) + live_entries(segs, from + 1)).push(e));
        }
    }
}

/// The number in a file name: the decimal digits in front of its first
/// dot, where there are digits, then a dot, and the number is a `usize`.
pub open spec fn name_number(name: Seq<u8>) -> Option<usize> {
    let e = run_end(name, 0, Class::Digit);
    if 0 < e < name.len() && name[e] == 46 && digits_value(name, 0, e) <= usize::MAX {
        Some(digits_value(name, 0, e) as usize)
    } else {
        None
    }
}

/// The number of the next segment file: one above the highest number in
/// the names of the segments, at most `usize::MAX`; 0 where no name holds
/// a number.
pub open spec fn next_number(segs: Seq<WALSeg>) -> usize
    decreases segs.len(),
{
    if segs.len() == 0 {
        0
    } else {
        let rest = next_number(segs.drop_last());
        match name_number(vstd::utf8::encode_utf8(segs.last().file_name@)) {
            Some(n) => if n >= rest {
                if n == usize::MAX {
                    n
                } else {
                    (n + 1) as usize
                }
            } else {
                rest
            },
            None => rest,
        }
    }
}

/// The number in a file name.
pub fn file_number(name: &String) -> (r: Option<usize>)
    ensures
        r == name_number(vstd::utf8::encode_utf8(name@)),
{
    let bytes = name.as_str().as_bytes();
    let e = scan(bytes, 0, Class::Digit);
    if e == 0 || e >= bytes.len() || bytes[e] != 46 {
        return None;
    }
    match digits(bytes, 0, e, usize::MAX as u64) {
        Some(v) => Some(v as usize),
        None => None,
    }
}

/// A sorted run of segments: none has a name below that of a segment
/// before it.
pub proof fn lemma_sort_by_name_sorted(s: Seq<WALSeg>)
    ensures
        sorted_by_name(sort_by_name(s)),
    decreases s.len(),
{
    if s.len() > 0 {
        let done = sort_by_name(s.drop_last());
        let x = s.last();
        lemma_sort_by_name_sorted(s.drop_last());
        lemma_seg_pos_splits(done, x);
        let p = seg_pos(done, x);
        let t = sort_by_name(s);
        assert forall|i: int, j: int| 0 <= i < j < t.len() implies !name_lt(
            (#[trigger] t[j]).file_name@,
            (#[trigger] t[i]).file_name@,
        ) by {
            if j < p {
                assert(t[i] == done[i] && t[j] == done[j]);
            } else if j == p {
                assert(t[i] == done[i]);
            } else if i < p {
                assert(t[i] == done[i] && t[j] == done[j - 1]);
            } else if i == p {
                assert(t[j] == done[j - 1]);
                crate::util::lemma_lex_total(
                    vstd::utf8::encode_utf8(x.file_name@),
                    vstd::utf8::encode_utf8(done[j - 1].file_name@),
                );
            } else {
                assert(t[i] == done[i - 1] && t[j] == done[j - 1]);
            }
        }
    }
}

/// Where a segment goes into a sorted run, no segment before has a name
/// above its own, and all segments behind have.
pub proof fn lemma_seg_pos_splits(s: Seq<WALSeg>, x: WALSeg)
    requires
        sorted_by_name(s),
    ensures
        0 <= seg_pos(s, x) <= s.len(),
        forall|i: int|
            0 <= i < seg_pos(s, x) ==> !name_lt(x.file_name@, (#[trigger] s[i]).file_name@),
        forall|i: int|
            seg_pos(s, x) <= i < s.len() ==> name_lt(x.file_name@, (#[trigger] s[i]).file_name@),
    decreases s.len(),
{
    if s.len() == 0 {
    } else if name_lt(x.file_name@, s.last().file_name@) {
        let front = s.drop_last();
        assert forall|i: int, j: int| 0 <= i < j < front.len() implies !name_lt(
            (#[trigger] front[j]).file_name@,
            (#[trigger] front[i]).file_name@,
        ) by {
            assert(front[i] == s[i] && front[j] == s[j]);
        }
        lemma_seg_pos_splits(front, x);
        assert forall|i: int| 0 <= i < seg_pos(s, x) implies !name_lt(
            x.file_name@,
            (#[trigger] s[i]).file_name@,
        ) by {
            assert(s[i] == front[i]);
        }
        assert forall|i: int| seg_pos(s, x) <= i < s.len() implies name_lt(
            x.file_name@,
            (#[trigger] s[i]).file_name@,
        ) by {
            if i < front.len() {
                assert(s[i] == front[i]);
            }
        }
    } else {
        let xb = vstd::utf8::encode_utf8(x.file_name@);
        let lb = vstd::utf8::encode_utf8(s.last().file_name@);
        assert forall|i: int| 0 <= i < s.len() implies !name_lt(
            x.file_name@,
            (#[trigger] s[i]).file_name@,
        ) by {
            let ib = vstd::utf8::encode_utf8(s[i].file_name@);
            if i < s.len() - 1 {
                // s[i] is not above the last segment, which is not above x
                assert(!name_lt(s[s.len() - 1].file_name@, s[i].file_name@));
                crate::util::lemma_lex_total(xb, ib);
                crate::util::lemma_lex_total(lb, ib);
                crate::util::lemma_lex_total(xb, lb);
                if lex_lt(xb, ib) {
                    if ib == lb {
                    } else {
                        crate::util::lemma_lex_transitive(xb, ib, lb);
                    }
                }
            }
        }
    }
}

/// The write-ahead log: its segments in the order of their file names.
pub struct WAL {
    pub opt: Options,
    pub segs: Vec<WALSeg>,
    pub current_file_num: usize,
}

/// The segments of the files of a directory.
pub open spec fn segs_of(files: Seq<(String, Vec<u8>)>) -> Seq<WALSeg> {
    Seq::new(
        files.len(),
        |i: int| WALSeg { file_name: files[i].0, data: files[i].1, deleted_: false },
    )
}

impl WAL {
    /// The log entries of the segments that are not deleted, in order.
    pub open spec fn entries_spec(&self) -> Seq<EntryView> {
        live_entries(self.segs@, 0)
    }

    /// The log of the segment files that are there: `files` holds the name
    /// and the bytes of each. The segments are put in the order of their
    /// names.
    pub fn new(opt: Options, files: Vec<(String, Vec<u8>)>) -> (r: MyResult<WAL>)
        ensures
            r matches Ok(w) && w.opt == opt && w.segs@ == sort_by_name(segs_of(files@))
                && sorted_by_name(w.segs@) && w.current_file_num == next_number(w.segs@),
    {
        let ghost all = files@;
        let mut files = files;
        let mut segs: Vec<WALSeg> = Vec::new();
        let ghost mut k: int = 0;
        proof {
            assert(segs_of(all).take(0) =~= Seq::<WALSeg>::empty());
        }
        while files.len() > 0
            invariant
                0 <= k <= all.len(),
                files@ == all.skip(k),
                segs@ == segs_of(all).take(k),
            decreases files@.len(),
        {
            let (name, data) = files.remove(0);
            segs.push(WALSeg::with_data(name, data));
            proof {
                assert(files@ =~= all.skip(k + 1));
                assert(segs@ =~= segs_of(all).take(k + 1));
                k = k + 1;
            }
        }
        proof {
            assert(segs_of(all).take(all.len() as int) =~= segs_of(all));
        }
        sort_segs(&mut segs);
        proof {
            lemma_sort_by_name_sorted(segs_of(all));
            assert(segs@.take(0) =~= Seq::<WALSeg>::empty());
        }
        let mut next: usize = 0;
        let mut i: usize = 0;
        while i < segs.len()
            invariant
                i <= segs@.len(),
                next == next_number(segs@.take(i as int)),
            decreases segs@.len() - i,
        {
            proof {
                assert(segs@.take(i + 1).drop_last() =~= segs@.take(i as int));
                assert(segs@.take(i + 1).last() == segs@[i as int]);
            }
            match file_number(&segs[i].file_name) {
                Some(n) => {
                    if n >= next {
                        next = if n == usize::MAX {
                            n
                        } else {
                            n + 1
                        };
                    }
                },
                None => {},
            }
            i += 1;
        }
        proof {
            assert(segs@.take(segs@.len() as int) =~= segs@);
        }
        Ok(WAL { opt, segs, current_file_num: next })
    }

    /// The number of segments.
    pub fn seg_count(&self) -> (n: usize)
        ensures
            n == self.segs@.len(),
    {
        self.segs.len()
    }

    /// Segment `i`, if there is one.
    pub fn get_seg(&self, i: usize) -> (r: Option<&WALSeg>)
        ensures
            match r {
                Some(s) => i < self.segs@.len() && *s == self.segs@[i as int],
                None => i >= self.segs@.len(),
            },
    {
        if i < self.segs.len() {
            Some(&self.segs[i])
        } else {
            None
        }
    }

    /// Segment `i`, for changing it, if there is one.
    pub fn get_seg_mut(&mut self, i: usize) -> (r: Option<&mut WALSeg>)
        ensures
            match r {
                Some(s) => i < old(self).segs@.len() && *s == old(self).segs@[i as int] && final(self).segs@ == old(self).segs@.update(i as int, *final(s)) && final(self).opt == old(self).opt && final(self).current_file_num == old(self).current_file_num,
                None => i >= old(self).segs@.len() && *final(self) == *old(self),
            },
    {
        if i < self.segs.len() {
            Some(&mut self.segs[i])
        } else {
            None
        }
    }

    /// The number of the next segment file.
    fn new_file_num(&mut self) -> (n: usize)
        requires
            old(self).current_file_num < usize::MAX,
        ensures
            n == old(self).current_file_num,
            final(self).current_file_num == n + 1,
            final(self).segs == old(self).segs,
            final(self).opt == old(self).opt,
    {
        let n = self.current_file_num;
        self.current_file_num += 1;
        n
    }

    /// Starts a segment: an empty one, named after the next file number,
    /// at the end of the list. `InvalidData` where the file numbers are
    /// used up.
    pub fn new_seg(&mut self) -> (r: MyResult<()>)
        ensures
            final(self).opt == old(self).opt,
            match r {
                Ok(()) => final(self).segs@.len() == old(self).segs@.len() + 1 && final(self).segs@.drop_last() == old(self).segs@ && final(self).segs@.last().data@
                    == Seq::<u8>::empty() && !final(self).segs@.last().deleted_ && final(self).segs@.last().file_name@ == file_name_spec(
                    old(self).current_file_num as nat,
                    "wal"@,
                ) && final(self).current_file_num == old(self).current_file_num + 1,
                Err(s) => s.code == StatusCode::InvalidData && old(self).current_file_num
                    == usize::MAX && final(self).segs == old(self).segs && final(self).current_file_num == old(self).current_file_num,
            },
    {
        if self.current_file_num == usize::MAX {
            return Err(Status::new(StatusCode::InvalidData, "file numbers used up"));
        }
        let file_num = self.new_file_num();
        let file_name = make_file_name(file_num, "wal");
        self.segs.push(WALSeg::new(file_name));
        assert(self.segs@.drop_last() =~= old(self).segs@);
        Ok(())
    }

    /// Whether the segment that takes the next record holds whole records
    /// only.
    pub open spec fn clean(&self) -> bool {
        !self.ends_deleted() ==> wal_clean(self.segs@.last().data@)
    }

    /// The number of segments before segment `mark` that are not
    /// deleted.
    pub fn count_live(&self, mark: usize) -> (n: usize)
        ensures
            n == live_before(self.segs@, mark as int),
    {
        let mut n: usize = 0;
        let mut i: usize = 0;
        while i < mark && i < self.segs.len()
            invariant
                i <= mark,
                i <= self.segs@.len(),
                n <= i,
                n == live_before(self.segs@, i as int),
            decreases self.segs@.len() - i,
        {
            if !self.segs[i].deleted() {
                n += 1;
            }
            i += 1;
        }
        proof {
            lemma_live_before_end(self.segs@, i as int, mark as int);
        }
        n
    }

    /// Whether the last segment takes no more records: there is none, or
    /// it is deleted.
    pub open spec fn ends_deleted(&self) -> bool {
        self.segs@.len() == 0 || self.segs@.last().deleted_
    }

    /// Whether the log takes an entry: the entry has its bytes, and where
    /// a segment must be started a file number is left for it.
    pub open spec fn takes(&self, e: EntryView) -> bool {
        entry_bytes(e.0, e.1) is Some && (self.ends_deleted() ==> self.current_file_num
            < usize::MAX)
    }

    /// Appends the record of a log entry to the last segment; a segment
    /// is started first where there is none, or the last is deleted.
    /// Where the last segment held whole records only, the log then holds
    /// the entries that it held and the new entry. `InvalidData` where
    /// the log does not take the entry; it is then as before.
    pub fn append(&mut self, entry: &LogEntry<Vec<u8>, Vec<u8>>) -> (r: MyResult<()>)
        ensures
            final(self).opt == old(self).opt,
            r is Ok <==> old(self).takes(entry_view(*entry)),
            r is Ok ==> final(self).segs@.len() > 0 && final(self).segs@.last().data@ == (if old(self).segs@.len() > 0 && !old(self).segs@.last().deleted_ {
                old(self).segs@.last().data@
            } else {
                Seq::<u8>::empty()
            }) + entry_record(entry_view(*entry)) && !final(self).segs@.last().deleted_,
            r is Ok ==> final(self).segs@.len() == (if old(self).ends_deleted() {
                old(self).segs@.len() + 1
            } else {
                old(self).segs@.len()
            }),
            r is Ok ==> final(self).segs@.drop_last() == (if old(self).ends_deleted() {
                old(self).segs@
            } else {
                old(self).segs@.drop_last()
            }),
            r is Ok ==> final(self).segs@.last().file_name@ == (if old(self).ends_deleted() {
                file_name_spec(old(self).current_file_num as nat, "wal"@)
            } else {
                old(self).segs@.last().file_name@
            }),
            r is Ok ==> final(self).current_file_num == (if old(self).ends_deleted() {
                (old(self).current_file_num + 1) as usize
            } else {
                old(self).current_file_num
            }),
            r is Ok && old(self).clean() ==> final(self).entries_spec() == old(self).entries_spec().push(entry_view(*entry)),
            r matches Err(s) ==> s.code == StatusCode::InvalidData && final(self).segs == old(self).segs && final(self).current_file_num == old(self).current_file_num,
    {
        let encoded = encode_entry(&entry.k, &entry.v);
        proof {
            lemma_entry_sizes(*entry);
        }
        self.append_encoded(encoded)
    }

    /// Appends a record with the given body to the last segment; a
    /// segment is started first where there is none, or the last is
    /// deleted. Where the body is the encoding of a log entry and the
    /// last segment held whole records only, the log then holds the
    /// entries that it held and that entry. `InvalidData` where there is
    /// no body, or no file number is left for a segment that must be
    /// started; the log is then as before.
    pub fn append_encoded(&mut self, encoded: Option<Vec<u8>>) -> (r: MyResult<()>)
        ensures
            final(self).opt == old(self).opt,
            r is Ok <==> encoded is Some && (old(self).ends_deleted() ==> old(self).current_file_num
                < usize::MAX),
            r is Ok ==> final(self).segs@.len() > 0 && final(self).segs@.last().data@ == (if old(self).ends_deleted() {
                Seq::<u8>::empty()
            } else {
                old(self).segs@.last().data@
            }) + record_frame(encoded.unwrap()@) && !final(self).segs@.last().deleted_,
            r is Ok ==> final(self).segs@.len() == (if old(self).ends_deleted() {
                old(self).segs@.len() + 1
            } else {
                old(self).segs@.len()
            }),
            r is Ok ==> final(self).segs@.drop_last() == (if old(self).ends_deleted() {
                old(self).segs@
            } else {
                old(self).segs@.drop_last()
            }),
            r is Ok ==> final(self).segs@.last().file_name@ == (if old(self).ends_deleted() {
                file_name_spec(old(self).current_file_num as nat, "wal"@)
            } else {
                old(self).segs@.last().file_name@
            }),
            r is Ok ==> final(self).current_file_num == (if old(self).ends_deleted() {
                (old(self).current_file_num + 1) as usize
            } else {
                old(self).current_file_num
            }),
            r is Ok && old(self).clean() ==> forall|e: EntryView|
                encoded.unwrap()@ == #[trigger] entry_encoding(e.0, e.1) && e.0.len() <= u64::MAX
                    && (e.1 matches Some(b) ==> b.len() <= u64::MAX) ==> final(self).entries_spec() == old(self).entries_spec().push(e),
            r matches Err(s) ==> s.code == StatusCode::InvalidData && final(self).segs == old(self).segs && final(self).current_file_num == old(self).current_file_num,
    {
        let l = self.segs.len();
        let fresh = l == 0 || self.segs[l - 1].deleted();
        let body = match encoded {
            Some(b) => b,
            None => {
                return Err(Status::new(StatusCode::InvalidData, "entry cannot be encoded"));
            },
        };
        assert(body@.len() == body.len());
        if fresh {
            match self.new_seg() {
                Ok(()) => {},
                Err(s) => {
                    return Err(s);
                },
            }
        }
        let ghost mid = self.segs@;
        proof {
            if fresh {
                lemma_live_push_empty(old(self).segs@, mid[mid.len() - 1], 0);
                assert(mid =~= old(self).segs@.push(mid[mid.len() - 1]));
                assert(wal_clean(mid[mid.len() - 1].data@)) by {
                    reveal(wal_next);
                }
            }
        }
        let mut seg = match self.segs.pop() {
            Some(s) => s,
            None => {
                return Err(Status::new(StatusCode::InvalidData, "no segment"));
            },
        };
        let r = seg.append_encoded(Some(body));
        self.segs.push(seg);
        proof {
            assert(self.segs@ =~= mid.update(mid.len() - 1, seg));
            assert(self.segs@.drop_last() =~= mid.drop_last());
            if wal_clean(mid[mid.len() - 1].data@) {
                assert forall|e: EntryView|
                    body@ == #[trigger] entry_encoding(e.0, e.1) && e.0.len() <= u64::MAX && (
                    e.1 matches Some(b) ==> b.len() <= u64::MAX) implies self.entries_spec() == old(self).entries_spec().push(e) by {
                    lemma_live_append(mid, 0, seg, e);
                }
            }
        }
        r
    }

    /// Marks the first segment that is not deleted as deleted; its file
    /// can then be removed.
    pub fn consume_seg(&mut self) -> (r: MyResult<()>)
        ensures
            r is Ok,
            final(self).opt == old(self).opt,
            final(self).current_file_num == old(self).current_file_num,
            final(self).segs@ == consumed(old(self).segs@),
    {
        let mut i: usize = 0;
        while i < self.segs.len()
            invariant
                i <= self.segs@.len(),
                self.segs == old(self).segs,
                self.opt == old(self).opt,
                self.current_file_num == old(self).current_file_num,
                first_live(self.segs@, 0) == first_live(self.segs@, i as int),
            ensures
                i < self.segs@.len() ==> !self.segs@[i as int].deleted_,
            decreases self.segs@.len() - i,
        {
            if !self.segs[i].deleted() {
                break ;
            }
            i += 1;
        }
        if i >= self.segs.len() {
            return Ok(());
        }
        let mut seg = self.segs.remove(i);
        let ghost was = seg;
        let r = seg.delete();
        self.segs.insert(i, seg);
        proof {
            assert(seg == WALSeg { file_name: was.file_name, data: was.data, deleted_: true });
            assert(self.segs@ =~= old(self).segs@.update(i as int, seg));
        }
        r
    }

    /// Marks the first `n` segments that are not deleted as deleted.
    pub fn truncate(&mut self, n: usize) -> (r: MyResult<()>)
        ensures
            r is Ok,
            final(self).opt == old(self).opt,
            final(self).current_file_num == old(self).current_file_num,
            final(self).segs@ == truncated(old(self).segs@, n as nat),
    {
        let mut k: usize = 0;
        while k < n
            invariant
                k <= n,
                self.opt == old(self).opt,
                self.current_file_num == old(self).current_file_num,
                truncated(old(self).segs@, n as nat) == truncated(self.segs@, (n - k) as nat),
            decreases n - k,
        {
            let _ = self.consume_seg();
            k += 1;
        }
        Ok(())
    }

    /// The log entries of the segments that are not deleted, in order:
    /// what a store replays when it is opened.
    pub fn entries(&self) -> (es: Vec<LogEntry<Vec<u8>, Vec<u8>>>)
        ensures
            entries_view(es@) == self.entries_spec(),
    {
        let mut out: Vec<LogEntry<Vec<u8>, Vec<u8>>> = Vec::new();
        let mut it = WALIter::new(self);
        loop
            invariant
                it.wal == self,
                it.inv(),
                self.entries_spec() == entries_view(out@) + it.remaining(),
            ensures
                entries_view(out@) == self.entries_spec(),
            decreases it.measure(),
        {
            let ghost before = out@;
            let ghost rest = it.remaining();
            proof {
                lemma_tail_size(it.wal.segs@, it.index as int);
                lemma_tail_size(it.wal.segs@, it.index + 1);
            }
            let r = it.next();
            if r.is_none() {
                proof {
                    assert(entries_view(out@) + rest =~= entries_view(out@));
                }
                break ;
            }
            let e = r.unwrap();
            out.push(e);
            proof {
                lemma_tail_size(it.wal.segs@, it.index as int);
                lemma_tail_size(it.wal.segs@, it.index + 1);
                assert(it.measure() >= 0);
                assert(entries_view(out@) =~= entries_view(before).push(entry_view(e)));
                assert(entries_view(before) + (seq![entry_view(e)] + it.remaining())
                    =~= entries_view(out@) + it.remaining());
            }
        }
        out
    }

    /// A cursor at the first log entry.
    pub fn iter(&self) -> (r: MyResult<WALIter<'_>>)
        ensures
            r matches Ok(it) && it.wal == self && it.inv() && it.remaining() == self.entries_spec(),
    {
        Ok(WALIter::new(self))
    }
}

/// The log entries of the segments with an empty segment at their end
/// are the same.
pub proof fn lemma_live_push_empty(segs: Seq<WALSeg>, x: WALSeg, from: int)
    requires
        0 <= from <= segs.len(),
        x.data@.len() == 0,
    ensures
        live_entries(segs.push(x), from) == live_entries(segs, from),
    decreases segs.len() - from,
{
    let s2 = segs.push(x);
    if from == segs.len() {
        assert(wal_next(x.data@, 0) is None) by {
            reveal(wal_next);
        }
        assert(wal_entries(x.data@, 0) =~= Seq::<EntryView>::empty());
        assert(live_entries(s2, from + 1) =~= Seq::<EntryView>::empty());
        assert(live_entries(s2, from) =~= Seq::<EntryView>::empty());
        assert(live_entries(segs, from) =~= Seq::<EntryView>::empty());
    } else {
        lemma_live_push_empty(segs, x, from + 1);
        assert(s2[from] == segs[from]);
    }
}

/// The key and the value of a log entry in memory are short enough for
/// their lengths to be written down.
pub proof fn lemma_entry_sizes(e: LogEntry<Vec<u8>, Vec<u8>>)
    ensures
        entry_view(e).0.len() <= usize::MAX,
        entry_view(e).1 matches Some(b) ==> b.len() <= usize::MAX,
{
    assert(e.k@.len() == e.k.len());
    if let Some(b) = e.v {
        assert(b@.len() == b.len());
    }
}

/// The bytes of the segments from `from` on, and two more for each.
pub open spec fn tail_size(segs: Seq<WALSeg>, from: int) -> int
    decreases segs.len() - from,
{
    if from < 0 || from >= segs.len() {
        0
    } else {
        segs[from].data@.len() + 2 + tail_size(segs, from + 1)
    }
}

/// What is left to read from a segment on: its bytes, two more, and what
/// is left from the next on.
pub proof fn lemma_tail_size(segs: Seq<WALSeg>, from: int)
    ensures
        tail_size(segs, from) >= 0,
        0 <= from < segs.len() ==> tail_size(segs, from) == segs[from].data@.len() + 2
            + tail_size(segs, from + 1),
        from >= segs.len() ==> tail_size(segs, from) == 0,
    decreases segs.len() - from,
{
    if 0 <= from < segs.len() {
        lemma_tail_size(segs, from + 1);
    }
}

/// A cursor over the log entries of the segments that are not deleted.
pub struct WALIter<'a> {
    pub wal: &'a WAL,
    pub index: usize,
    pub seg_iter: Option<WALSegIter<'a>>,
}

impl<'a> WALIter<'a> {
    /// A cursor at the first log entry.
    pub fn new(wal: &'a WAL) -> (it: WALIter<'a>)
        ensures
            it.wal == wal,
            it.inv(),
            it.remaining() == wal.entries_spec(),
    {
        WALIter { wal, index: 0, seg_iter: None }
    }

    /// The cursor fits its log: it is inside a segment that is there, or
    /// between segments.
    pub open spec fn inv(&self) -> bool {
        &&& self.index <= self.wal.segs@.len()
        &&& self.seg_iter matches Some(it) ==> self.index < self.wal.segs@.len() && it.data@
            == self.wal.segs@[self.index as int].data@ && it.offset <= it.data@.len()
    }

    /// The log entries that are still to come.
    pub open spec fn remaining(&self) -> Seq<EntryView> {
        match self.seg_iter {
            Some(it) => it.remaining() + live_entries(self.wal.segs@, self.index + 1),
            None => live_entries(self.wal.segs@, self.index as int),
        }
    }

    /// What is left to read, as a number that every step makes smaller.
    pub open spec fn measure(&self) -> int {
        match self.seg_iter {
            Some(it) => it.data@.len() - it.offset + 1 + tail_size(self.wal.segs@, self.index + 1),
            None => tail_size(self.wal.segs@, self.index as int),
        }
    }

    /// The next log entry; `None` behind the last.
    pub fn next(&mut self) -> (r: Option<LogEntry<Vec<u8>, Vec<u8>>>)
        requires
            old(self).inv(),
        ensures
            final(self).wal == old(self).wal,
            final(self).inv(),
            match r {
                Some(e) => old(self).remaining() == seq![entry_view(e)] + final(self).remaining()
                    && final(self).measure() < old(self).measure(),
                None => old(self).remaining().len() == 0 && final(self).remaining().len() == 0,
            },
    {
        let count = self.wal.segs.len();
        loop
            invariant
                self.wal == old(self).wal,
                count == self.wal.segs@.len(),
                self.inv(),
                self.remaining() == old(self).remaining(),
                self.measure() <= old(self).measure(),
            decreases self.measure(),
        {
            let ghost before = *self;
            let ghost segs = self.wal.segs@;
            proof {
                lemma_tail_size(self.wal.segs@, self.index as int);
                lemma_tail_size(self.wal.segs@, self.index + 1);
            }
            let cur = self.seg_iter.take();
            match cur {
                Some(mut it) => {
                    let ghost it0 = it;
                    proof {
                        lemma_wal_next_bounds(it.data@, it.offset as int);
                    }
                    match it.next() {
                        Some(e) => {
                            self.seg_iter = Some(it);
                            proof {
                                let rest = live_entries(segs, self.index + 1);
                                assert(it0.remaining() + rest =~= seq![entry_view(e)] + (
                                it.remaining() + rest));
                            }
                            return Some(e);
                        },
                        None => {
                            proof {
                                let rest = live_entries(segs, self.index + 1);
                                assert(it0.remaining() + rest =~= rest);
                            }
                            self.index += 1;
                        },
                    }
                },
                None => {},
            }
            while self.index < count && self.wal.segs[self.index].deleted()
                invariant
                    self.wal == old(self).wal,
                    count == self.wal.segs@.len(),
                    segs == self.wal.segs@,
                    self.index <= count,
                    self.seg_iter is None,
                    self.remaining() == old(self).remaining(),
                    self.measure() <= before.measure(),
                    before.seg_iter is Some ==> self.measure() < before.measure(),
                    before.measure() <= old(self).measure(),
                decreases count - self.index,
            {
                proof {
                    lemma_tail_size(self.wal.segs@, self.index as int);
                }
                self.index += 1;
            }
            if self.index >= count {
                proof {
                    assert(live_entries(segs, self.index as int) =~= Seq::<EntryView>::empty());
                }
                return None;
            }
            proof {
                lemma_tail_size(self.wal.segs@, self.index as int);
                lemma_tail_size(self.wal.segs@, self.index + 1);
            }
            let ghost mid = *self;
            self.seg_iter = Some(self.wal.segs[self.index].iter());
            proof {
                assert(mid.measure() == tail_size(segs, self.index as int));
                assert(self.measure() == tail_size(segs, self.index as int) - 1);
                assert(self.measure() < before.measure());
                assert(before.measure() >= 0) by {
                    lemma_tail_size(segs, before.index as int);
                    lemma_tail_size(segs, before.index + 1);
                }
                let seg = segs[self.index as int];
                assert(self.remaining() =~= mid.remaining());
            }
        }
    }

}

/// Every value of the log entries has its bytes: bincode gives them.
pub open spec fn values_encodable(es: Seq<EntryView>) -> bool {
    forall|i: int| 0 <= i < es.len() ==> value_bytes((#[trigger] es[i]).1) is Some
}

impl WALSeg {
    /// The log entries of the segment as a table stores them: each key
    /// with the encoding of its value that is there or not.
    pub open spec fn table_entries_spec(&self) -> Seq<(Seq<u8>, Seq<u8>)> {
        Seq::new(
            self.entries_spec().len(),
            |i: int| (self.entries_spec()[i].0, option_encoding(self.entries_spec()[i].1)),
        )
    }

    /// Whether the segment can be stored as a table: the keys of its log
    /// entries ascend, every value has its bytes, and a table has room
    /// for the entries.
    pub open spec fn storable(&self) -> bool {
        &&& keys_ascend(self.table_entries_spec())
        &&& values_encodable(self.entries_spec())
        &&& table_fits(self.table_entries_spec())
    }

    /// Builds the table of the segment's log entries, in their order, and
    /// returns the table's name, the bytes of its file and its reader.
    /// `InvalidData` where the keys of the entries do not ascend, a value
    /// has no bytes or an entry does not fit; `CompressError` where a
    /// block cannot be compressed. A segment that can be stored is
    /// stored, where the blocks are not compressed.
    pub fn build_sstable(&self, opt: &Options, path: &str) -> (r: MyResult<
        (String, Vec<u8>, TableReader),
    >)
        ensures
            r matches Ok((name, bytes, reader)) ==> name@ == path@ && table_wf(bytes@)
                && table_entries(bytes@) == self.table_entries_spec() && reader.wf()
                && reader.file@ == bytes@ && reader.file_name_@ == path@,
            self.storable() && opt.table_opt().compress_type == CompressType::Uncompressed ==> r
                is Ok,
            r matches Err(s) ==> (s.code == StatusCode::InvalidData && !self.storable()) || (
            s.code == StatusCode::CompressError && opt.table_opt().compress_type
                == CompressType::Snappy),
    {
        let table_opt = opt.to_table_opt();
        let mut tb = TableBuilder::new(path, table_opt);
        let es = self.entries();
        let ghost want = self.table_entries_spec();
        let mut i: usize = 0;
        proof {
            assert(want.take(0) =~= Seq::<(Seq<u8>, Seq<u8>)>::empty());
        }
        while i < es.len()
            invariant
                i <= es@.len(),
                entries_view(es@) == self.entries_spec(),
                want == self.table_entries_spec(),
                tb.wf(),
                tb@ == want.take(i as int),
                tb.options() == opt.table_opt(),
            decreases es@.len() - i,
        {
            let e = &es[i];
            proof {
                assert(entries_view(es@)[i as int] == entry_view(es@[i as int]));
                if i > 0 {
                    assert(entries_view(es@)[i - 1] == entry_view(es@[i - 1]));
                    assert(want.take(i as int)[i - 1] == want[i - 1]);
                }
            }
            if i > 0 && !bytes_lt(es[i - 1].k.as_slice(), e.k.as_slice()) {
                proof {
                    assert(want[i - 1].0 == es@[i - 1].k@);
                    assert(want[i as int].0 == e.k@);
                }
                return Err(Status::new(StatusCode::InvalidData, "keys out of order"));
            }
            let value = match encode_value(&e.v) {
                Some(v) => v,
                None => {
                    proof {
                        assert(self.entries_spec()[i as int].1 == option_view(e.v));
                    }
                    return Err(Status::new(StatusCode::InvalidData, "value cannot be encoded"));
                },
            };
            proof {
                assert(want.take(i + 1) =~= want.take(i as int).push(want[i as int]));
                lemma_weight_take(want, i + 1);
            }
            match tb.add(e.k.as_slice(), value.as_slice()) {
                Ok(()) => {},
                Err(s) => {
                    return Err(s);
                },
            }
            i += 1;
        }
        proof {
            assert(want.take(es@.len() as int) =~= want);
        }
        let bytes = match tb.flush() {
            Ok(b) => b,
            Err(s) => {
                return Err(s);
            },
        };
        let copy = copy_range(bytes.as_slice(), 0, bytes.len());
        assert(copy@ =~= bytes@);
        let reader = match TableReader::new(path, copy, table_opt) {
            Ok(t) => t,
            Err(s) => {
                return Err(s);
            },
        };
        Ok((path.to_owned(), bytes, reader))
    }
}

} // verus!
