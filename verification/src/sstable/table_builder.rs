//! Building a table: data blocks as they fill up, then the index block
//! and the footer.

use crate::sstable::block::{block_at, bytes_at, decode_frame, frame_block};
use crate::sstable::block_builder::{BlockBuilder, ENTRY_OVERHEAD};
use crate::sstable::block_format::{
    block_kv, block_wf, keys_ascend, lemma_block_wf_ascend, lemma_keys_ascend_push,
};
use crate::sstable::block_handle::{
    handle_decode, handle_encoding, lemma_handle_roundtrip, BlockHandle,
};
use crate::sstable::footer::{footer_encoding, lemma_footer_roundtrip, Footer};
use crate::sstable::options::{CompressType, Options};
use crate::sstable::result::{MyResult, Status, StatusCode};
use crate::sstable::table_format::{
    block_entries_at, data_block, data_block_ok, entries_upto, index_handle, lemma_entries_upto,
    table_entries, table_index, table_wf, Entries,
};
use crate::util::{
    copy_range, extend_from, lemma_lex_le_lt, lemma_lex_le_transitive, lex_le, lex_lt,
    short_separator,
};
use vstd::prelude::*;

verus! {

/// `a` is the front of `b`.
pub open spec fn is_prefix(a: Seq<u8>, b: Seq<u8>) -> bool {
    a.len() <= b.len() && b.subrange(0, a.len() as int) == a
}

/// A block that lies in a file lies in every file that starts with it.
pub proof fn lemma_block_at_prefix(f1: Seq<u8>, f2: Seq<u8>, h: BlockHandle)
    requires
        is_prefix(f1, f2),
        h.offset + h.size <= f1.len(),
    ensures
        block_at(f2, h) == block_at(f1, h),
{
    assert(f2.subrange(h.offset as int, h.offset + h.size) =~= f1.subrange(
        h.offset as int,
        h.offset + h.size,
    )) by {
        assert forall|k: int| h.offset <= k < h.offset + h.size implies #[trigger] f2[k]
            == f1[k] by {
            assert(f2.subrange(0, f1.len() as int)[k] == f2[k]);
        }
    }
}

/// The data blocks of a table stay what they are when bytes are appended
/// to the file and entries to the index.
pub proof fn lemma_data_block_ok_grow(
    f1: Seq<u8>,
    f2: Seq<u8>,
    ikv1: Entries,
    ikv2: Entries,
    j: int,
)
    requires
        is_prefix(f1, f2),
        ikv1.len() <= ikv2.len(),
        forall|k: int| 0 <= k < ikv1.len() ==> ikv2[k] == ikv1[k],
        0 <= j < ikv1.len(),
        data_block_ok(f1, ikv1, j),
    ensures
        data_block_ok(f2, ikv2, j),
        block_entries_at(f2, ikv2, j) == block_entries_at(f1, ikv1, j),
{
    reveal(data_block);
    let h = handle_decode(ikv1[j].1).unwrap().0;
    lemma_block_at_prefix(f1, f2, h);
}

/// The entries of the data blocks stay what they are when bytes are
/// appended to the file and entries to the index.
pub proof fn lemma_entries_upto_grow(
    f1: Seq<u8>,
    f2: Seq<u8>,
    ikv1: Entries,
    ikv2: Entries,
    m: int,
)
    requires
        is_prefix(f1, f2),
        ikv1.len() <= ikv2.len(),
        forall|k: int| 0 <= k < ikv1.len() ==> ikv2[k] == ikv1[k],
        0 <= m <= ikv1.len(),
        forall|j: int| 0 <= j < m ==> data_block_ok(f1, ikv1, j),
    ensures
        entries_upto(f2, ikv2, m) == entries_upto(f1, ikv1, m),
    decreases m,
{
    if m > 0 {
        lemma_entries_upto_grow(f1, f2, ikv1, ikv2, m - 1);
        lemma_data_block_ok_grow(f1, f2, ikv1, ikv2, m - 1);
    }
}

/// The room that is kept for an entry besides its key and its value.
pub const ENTRY_ROOM: usize = 64;

/// The room that entries take at most, in their blocks and in the
/// index: for each the lengths of its key and its value, and
/// `ENTRY_ROOM`.
pub open spec fn entries_weight(kv: Entries) -> nat
    decreases kv.len(),
{
    if kv.len() == 0 {
        0
    } else {
        (entries_weight(kv.drop_last()) + kv.last().0.len() + kv.last().1.len()
            + ENTRY_ROOM) as nat
    }
}

/// Entries that a table has room for, whatever the size of its blocks.
pub open spec fn table_fits(kv: Entries) -> bool {
    entries_weight(kv) <= u32::MAX
}

/// The room that two runs of entries take is the sum of their rooms.
pub proof fn lemma_weight_concat(a: Entries, b: Entries)
    ensures
        entries_weight(a + b) == entries_weight(a) + entries_weight(b),
    decreases b.len(),
{
    if b.len() == 0 {
        assert(a + b =~= a);
    } else {
        lemma_weight_concat(a, b.drop_last());
        assert((a + b).drop_last() =~= a + b.drop_last());
        assert((a + b).last() == b.last());
    }
}

/// The front of a run of entries takes no more room than the run.
pub proof fn lemma_weight_take(kv: Entries, n: int)
    requires
        0 <= n <= kv.len(),
    ensures
        entries_weight(kv.take(n)) <= entries_weight(kv),
{
    lemma_weight_concat(kv.take(n), kv.skip(n));
    assert(kv.take(n) + kv.skip(n) =~= kv);
}

/// A table under construction.
pub struct TableBuilder {
    file_name: String,
    opt: Options,
    file: Vec<u8>,
    data_block: BlockBuilder,
    index_block: BlockBuilder,
}

impl View for TableBuilder {
    type V = Seq<(Seq<u8>, Seq<u8>)>;

    /// The keys and values added so far, in order.
    closed spec fn view(&self) -> Seq<(Seq<u8>, Seq<u8>)> {
        entries_upto(self.file@, self.index_block@, self.index_block@.len() as int)
            + self.data_block@
    }
}

impl TableBuilder {
    /// The finished part of the table is sound: every index entry names a
    /// data block of the file that is as it should be.
    pub closed spec fn sound(&self) -> bool {
        &&& self.data_block.wf()
        &&& self.index_block.wf()
        &&& self.data_block.options() == self.opt
        &&& self.index_block.options() == self.opt
        &&& forall|j: int|
            0 <= j < self.index_block@.len() ==> #[trigger] data_block_ok(
                self.file@,
                self.index_block@,
                j,
            )
        &&& self.index_block@.len() > 0 && self.data_block@.len() > 0 ==> lex_lt(
            self.index_block@[self.index_block@.len() - 1].0,
            self.data_block@[0].0,
        )
        &&& self.index_block.size_spec() <= 8 + entries_weight(
            entries_upto(self.file@, self.index_block@, self.index_block@.len() as int),
        )
    }

    /// An entry fits where the table has room for it behind the entries
    /// added so far.
    pub proof fn lemma_fits(&self, key_len: nat, value_len: nat)
        requires
            self.wf(),
            entries_weight(self@) + key_len + value_len + ENTRY_ROOM <= u32::MAX,
        ensures
            self.fits(key_len, value_len),
            self.fits(0, 0),
    {
        self.data_block.lemma_view();
        self.index_block.lemma_view();
        let upto = entries_upto(self.file@, self.index_block@, self.index_block@.len() as int);
        lemma_weight_concat(upto, self.data_block@);
    }

    /// The builder's invariant: the finished part of the table is sound,
    /// and the block under construction holds the entry added last.
    pub closed spec fn wf(&self) -> bool {
        &&& self.sound()
        &&& self.index_block@.len() > 0 ==> self.data_block@.len() > 0
    }

    /// The table can be ended where it has room for the entries added.
    pub proof fn lemma_room_at_end(&self)
        requires
            self.wf(),
            table_fits(self@),
        ensures
            self.fits(0, 0),
    {
        self.data_block.lemma_view();
        self.index_block.lemma_view();
        let upto = entries_upto(self.file@, self.index_block@, self.index_block@.len() as int);
        lemma_weight_concat(upto, self.data_block@);
    }

    /// The options that the builder was made with.
    pub closed spec fn options(&self) -> Options {
        self.opt
    }

    /// Whether an entry with a key and a value of these lengths can be
    /// added: whether the block and the index that it goes to stay below
    /// 2^32 bytes.
    pub closed spec fn fits(&self, key_len: nat, value_len: nat) -> bool {
        &&& 8 + key_len + value_len + ENTRY_OVERHEAD <= u32::MAX
        &&& self.index_block.size_spec() + self.data_block.last_key_spec().len() + 20
            + ENTRY_OVERHEAD <= u32::MAX
    }

    /// A builder of the table that will be stored under `file_name`.
    pub fn new(file_name: &str, opt: Options) -> (b: TableBuilder)
        ensures
            b.wf(),
            b@ == Seq::<(Seq<u8>, Seq<u8>)>::empty(),
            b.options() == opt,
            b.name() == file_name@,
            b.size_spec() == 8,
    {
        let b = TableBuilder {
            file_name: file_name.to_owned(),
            opt,
            file: Vec::new(),
            data_block: BlockBuilder::new(opt),
            index_block: BlockBuilder::new(opt),
        };
        assert(b@ =~= Seq::<(Seq<u8>, Seq<u8>)>::empty());
        b
    }

    /// The name that the builder was made with.
    pub closed spec fn name(&self) -> Seq<char> {
        self.file_name@
    }

    /// The bytes of the finished data blocks and of the block under
    /// construction, were it finished now.
    pub closed spec fn size_spec(&self) -> nat {
        self.file@.len() + self.data_block.size_spec()
    }

    /// The name of the file that the table will be stored under.
    pub fn file_name(&self) -> (n: &String)
        ensures
            n@ == self.name(),
    {
        &self.file_name
    }

    /// The bytes of the table so far: the finished data blocks and what
    /// the block under construction would take; `usize::MAX` where that
    /// is more.
    pub fn size_estimate(&self) -> (n: usize)
        requires
            self.wf(),
        ensures
            n == (if self.size_spec() > usize::MAX {
                usize::MAX
            } else {
                self.size_spec() as usize
            }),
    {
        let a = self.file.len();
        let b = self.data_block.size_estimate();
        if a > usize::MAX - b {
            usize::MAX
        } else {
            a + b
        }
    }

    /// Whether an entry with this key and value can be added.
    pub fn can_add(&self, key: &[u8], value: &[u8]) -> (ok: bool)
        requires
            self.wf(),
        ensures
            ok == self.fits(key@.len(), value@.len()),
    {
        let limit = u32::MAX as usize - ENTRY_OVERHEAD;
        if key.len() > limit || value.len() > limit - key.len() || 8 > limit - key.len()
            - value.len() {
            return false;
        }
        let used = self.index_block.size_estimate();
        let last = self.data_block.last_key().len();
        !(last > limit || 20 > limit - last || used > limit - last - 20)
    }

    /// Ends the data block under construction: writes its frame to the
    /// file and adds its index entry, keyed by a short key between its last
    /// key and `next`, or by its last key where no key follows.
    fn finish_block(&mut self, next: Option<&[u8]>) -> (r: MyResult<()>)
        requires
            old(self).sound(),
            old(self).data_block@.len() > 0,
            next matches Some(k) ==> lex_lt(
                old(self).data_block@[old(self).data_block@.len() - 1].0,
                k@,
            ),
            old(self).index_block.size_spec() + old(self).data_block.last_key_spec().len() + 20
                + ENTRY_OVERHEAD <= u32::MAX,
        ensures
            match r {
                Ok(()) => {
                    &&& final(self).sound()
                    &&& final(self).opt == old(self).opt
                    &&& final(self).file_name == old(self).file_name
                    &&& final(self).data_block@.len() == 0
                    &&& final(self).data_block.size_spec() == 8
                    &&& final(self)@ == old(self)@
                    &&& final(self).index_block@.len() == old(self).index_block@.len() + 1
                    &&& lex_le(
                        old(self).data_block@[old(self).data_block@.len() - 1].0,
                        final(self).index_block@[final(self).index_block@.len() - 1].0,
                    )
                    &&& next matches Some(k) ==> lex_lt(
                        final(self).index_block@[final(self).index_block@.len() - 1].0,
                        k@,
                    )
                },
                Err(s) => s.code == StatusCode::CompressError && old(self).opt.compress_type
                    == CompressType::Snappy,
            },
    {
        let ghost f1 = self.file@;
        let ghost ikv1 = self.index_block@;
        let ghost blk = self.data_block@;
        let ghost m = ikv1.len() as int;
        proof {
            self.data_block.lemma_view();
            self.index_block.lemma_view();
        }
        let last_ref = self.data_block.last_key();
        let last = copy_range(last_ref.as_slice(), 0, last_ref.len());
        assert(last@ =~= blk[blk.len() - 1].0);
        let sep = match next {
            Some(k) => short_separator(last.as_slice(), k),
            None => copy_range(last.as_slice(), 0, last.len()),
        };
        assert(lex_le(last@, sep@)) by {
            if next is None {
                assert(sep@ =~= last@);
            }
        }
        let block = self.data_block.take();
        let frame = match frame_block(block.as_slice(), self.opt.compress_type) {
            Ok(f) => f,
            Err(s) => {
                return Err(s);
            },
        };
        let handle = BlockHandle::new(self.file.len(), frame.len());
        let enc = handle.encode();
        proof {
            lemma_handle_roundtrip(handle, Seq::empty());
            assert(enc@ + Seq::<u8>::empty() =~= enc@);
            if m > 0 {
                // ikv1.last < blk[0] <= last <= sep
                if blk.len() > 1 {
                    assert(lex_lt(blk[0].0, blk[blk.len() - 1].0));
                }
                lemma_lex_le_lt(ikv1[m - 1].0, ikv1[m - 1].0, blk[0].0);
                lemma_lex_le_transitive(blk[0].0, last@, sep@);
                lemma_lex_le_lt(ikv1[m - 1].0, blk[0].0, sep@);
            }
        }
        extend_from(&mut self.file, frame.as_slice());
        let ghost index_size = self.index_block.size_spec();
        self.index_block.add(sep.as_slice(), enc.as_slice());
        proof {
            let f2 = self.file@;
            let ikv2 = self.index_block@;
            assert(is_prefix(f1, f2)) by {
                assert(f2.subrange(0, f1.len() as int) =~= f1);
            }
            assert forall|j: int| 0 <= j < ikv2.len() implies #[trigger] data_block_ok(
                f2,
                ikv2,
                j,
            ) by {
                if j < m {
                    assert(data_block_ok(f1, ikv1, j));
                    lemma_data_block_ok_grow(f1, f2, ikv1, ikv2, j);
                } else {
                    reveal(data_block);
                    assert(f2.subrange(handle.offset as int, handle.offset + handle.size)
                        =~= frame@);
                }
            }
            lemma_entries_upto_grow(f1, f2, ikv1, ikv2, m);
            assert(block_entries_at(f2, ikv2, m) == blk) by {
                reveal(data_block);
                assert(f2.subrange(handle.offset as int, handle.offset + handle.size) =~= frame@);
            }
            assert(entries_upto(f2, ikv2, m + 1) == entries_upto(f2, ikv2, m) + block_entries_at(
                f2,
                ikv2,
                m,
            ));
            assert(self@ =~= old(self)@);
            lemma_weight_concat(entries_upto(f2, ikv2, m), blk);
            assert(blk.last().0 == last@);
            assert(self.index_block.size_spec() <= index_size + sep@.len() + enc@.len()
                + ENTRY_OVERHEAD);
            assert(entries_weight(blk) >= last@.len() + ENTRY_ROOM);
        }
        Ok(())
    }

    /// Adds an entry. Its key must be above all keys added before. Where
    /// the data block under construction has grown beyond `block_size` it
    /// is ended first. Fails with `InvalidData` where the entry does not
    /// fit, and with `CompressError` where a block cannot be compressed.
    /// An entry fits where a table has room for it and the entries added
    /// before.
    pub fn add(&mut self, key: &[u8], value: &[u8]) -> (r: MyResult<()>)
        requires
            old(self).wf(),
            old(self)@.len() > 0 ==> lex_lt(old(self)@[old(self)@.len() - 1].0, key@),
        ensures
            match r {
                Ok(()) => final(self).wf() && final(self)@ == old(self)@.push((key@, value@))
                    && final(self).options() == old(self).options() && final(self).name() == old(self).name(),
                Err(s) => (s.code == StatusCode::InvalidData && !old(self).fits(
                    key@.len(),
                    value@.len(),
                )) || (s.code == StatusCode::CompressError && old(self).options().compress_type
                    == CompressType::Snappy),
            },
            old(self).fits(key@.len(), value@.len()) && old(self).options().compress_type
                == CompressType::Uncompressed ==> r is Ok,
            table_fits(old(self)@.push((key@, value@))) ==> old(self).fits(
                key@.len(),
                value@.len(),
            ),
    {
        proof {
            if table_fits(self@.push((key@, value@))) {
                assert(self@.push((key@, value@)).drop_last() =~= self@);
                self.lemma_fits(key@.len(), value@.len());
            }
        }
        if !self.can_add(key, value) {
            return Err(Status::new(StatusCode::InvalidData, "entry too large"));
        }
        proof {
            self.data_block.lemma_view();
        }
        let used = self.data_block.size_estimate();
        let room = u32::MAX as usize - ENTRY_OVERHEAD - key.len() - value.len();
        let ghost before = self@;
        if !self.data_block.is_empty() && (used > self.opt.block_size || used > room) {
            match self.finish_block(Some(key)) {
                Ok(()) => {},
                Err(s) => {
                    return Err(s);
                },
            }
        }
        let ghost mid_block = self.data_block@;
        self.data_block.add(key, value);
        proof {
            let upto = entries_upto(self.file@, self.index_block@, self.index_block@.len() as int);
            assert(self@ =~= (upto + mid_block).push((key@, value@)));
            if mid_block.len() > 0 {
                assert(self.data_block@[0] == mid_block[0]);
            }
        }
        Ok(())
    }

    /// Ends the table: ends the data block under construction, writes the
    /// index block and the footer, and returns the bytes of the file. The
    /// table is well formed and holds the entries added. Fails with
    /// `InvalidData` where the index grows beyond 2^32 bytes, which it
    /// does not where a table has room for the entries added, and with
    /// `CompressError` where a block cannot be compressed.
    pub fn flush(self) -> (r: MyResult<Vec<u8>>)
        requires
            self.wf(),
        ensures
            match r {
                Ok(out) => table_wf(out@) && table_entries(out@) == self@,
                Err(s) => (s.code == StatusCode::InvalidData && !self.fits(0, 0)) || (s.code
                    == StatusCode::CompressError && self.options().compress_type
                    == CompressType::Snappy),
            },
            self.fits(0, 0) && self.options().compress_type == CompressType::Uncompressed ==> r
                is Ok,
            table_fits(self@) ==> self.fits(0, 0),
    {
        proof {
            if table_fits(self@) {
                self.lemma_room_at_end();
            }
        }
        let mut b = self;
        if !b.data_block.is_empty() {
            if !b.can_add(&[], &[]) {
                return Err(Status::new(StatusCode::InvalidData, "index too large"));
            }
            match b.finish_block(None) {
                Ok(()) => {},
                Err(s) => {
                    return Err(s);
                },
            }
        }
        let ghost f1 = b.file@;
        let ghost ikv = b.index_block@;
        let ghost m = ikv.len() as int;
        assert(b@ =~= entries_upto(f1, ikv, m));
        let ctype = b.opt.compress_type;
        let index = b.index_block.finish();
        let frame = match frame_block(index.as_slice(), ctype) {
            Ok(f) => f,
            Err(s) => {
                return Err(s);
            },
        };
        let mut out = b.file;
        let handle = BlockHandle::new(out.len(), frame.len());
        extend_from(&mut out, frame.as_slice());
        let ghost f2 = out@;
        let footer = Footer::new(handle).encode();
        extend_from(&mut out, footer.as_slice());
        proof {
            let f3 = out@;
            lemma_footer_roundtrip(handle);
            assert(f3.subrange(f3.len() - 48, f3.len() as int) =~= footer@);
            assert(f3.subrange(handle.offset as int, handle.offset + handle.size) =~= frame@);
            assert(table_index(f3) == Ok::<Seq<u8>, StatusCode>(index@)) by {
                reveal(table_index);
            }
            assert(is_prefix(f1, f3)) by {
                assert(f3.subrange(0, f1.len() as int) =~= f1);
            }
            assert forall|j: int| 0 <= j < ikv.len() implies data_block_ok(f3, ikv, j) by {
                assert(data_block_ok(f1, ikv, j));
                lemma_data_block_ok_grow(f1, f3, ikv, ikv, j);
            }
            lemma_entries_upto_grow(f1, f3, ikv, ikv, m);
            assert(table_wf(f3)) by {
                reveal(table_wf);
            }
        }
        Ok(out)
    }
}

} // verus!
