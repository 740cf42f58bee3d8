//! Reading a table: the footer, the index block, then one data block for
//! a point lookup.

use crate::sstable::block::{block_at, Block};
use crate::sstable::block_format::{
    block_entries, block_kv, block_wf, first_at_least, keys_ascend, kv_of,
    lemma_block_wf_ascend, lemma_first_at_least_is,
};
use crate::sstable::block_handle::{handle_decode, BlockHandle};
use crate::sstable::block_iter::{position_after_seek, BlockIter, Position};
use crate::sstable::footer::{footer_decode, Footer, FOOTER_LENGTH};
use crate::sstable::options::Options;
use crate::sstable::result::{MyResult, Status, StatusCode};
use crate::sstable::table_format::{
    block_entries_at, data_block, data_block_ok, entries_upto, index_handle,
    lemma_block_position, lemma_entries_upto, lemma_table_lookup, lemma_table_wf, lookup,
    table_entries,
    table_get, table_index, table_wf,
};
use crate::sstable::table_iter::TableIter;
use crate::util::bytes_eq;
use vstd::prelude::*;
use vstd::slice::slice_subrange;

verus! {

/// An open table: the file's bytes, its index block and its key range.
pub struct TableReader {
    pub file_name_: String,
    pub file: Vec<u8>,
    pub opt: Options,
    pub index_block: Block,
    pub min_key_: Vec<u8>,
    pub max_key_: Vec<u8>,
}

/// The first key of a run; empty for an empty run.
pub open spec fn first_key(kv: Seq<(Seq<u8>, Seq<u8>)>) -> Seq<u8> {
    if kv.len() > 0 {
        kv[0].0
    } else {
        Seq::empty()
    }
}

/// The last key of a run; empty for an empty run.
pub open spec fn last_key(kv: Seq<(Seq<u8>, Seq<u8>)>) -> Seq<u8> {
    if kv.len() > 0 {
        kv[kv.len() - 1].0
    } else {
        Seq::empty()
    }
}

impl TableReader {
    /// The reader holds the index block of its file.
    pub open spec fn inv(&self) -> bool {
        table_index(self.file@) == Ok::<Seq<u8>, StatusCode>(self.index_block.block@)
    }

    /// The reader's file is a well-formed table, and the reader knows its
    /// first and last key.
    pub open spec fn wf(&self) -> bool {
        &&& self.inv()
        &&& table_wf(self.file@)
        &&& self.min_key_@ == first_key(table_entries(self.file@))
        &&& self.max_key_@ == last_key(table_entries(self.file@))
    }

    /// The keys and values of the table.
    pub open spec fn entries(&self) -> Seq<(Seq<u8>, Seq<u8>)> {
        table_entries(self.file@)
    }

    /// The keys and values of the index block.
    pub open spec fn index_kv(&self) -> Seq<(Seq<u8>, Seq<u8>)> {
        block_kv(self.index_block.block@)
    }

    /// Opens the table that `file` holds. Fails where the footer or the
    /// index block cannot be read, or the first or last data block; never
    /// on a well-formed table.
    pub fn new(file_name: &str, file: Vec<u8>, opt: Options) -> (r: MyResult<TableReader>)
        ensures
            match r {
                Ok(t) => t.inv() && t.file@ == file@ && t.file_name_@ == file_name@ && t.opt == opt
                    && (table_wf(file@) ==> t.wf()),
                Err(s) => !table_wf(file@) && (table_index(file@) matches Err(c) ==> s.code == c),
            },
    {
        let len = file.len();
        proof {
            reveal(table_index);
            if table_wf(file@) {
                lemma_table_wf(file@);
            }
        }
        if len < FOOTER_LENGTH {
            return Err(Status::new(StatusCode::InvalidData, "file too short"));
        }
        let footer = match Footer::decode(slice_subrange(file.as_slice(), len - 48, len)) {
            Ok(f) => f,
            Err(s) => {
                return Err(s);
            },
        };
        let index_block = match Block::new_from_location(file.as_slice(), &footer.index, opt) {
            Ok((b, _)) => b,
            Err(s) => {
                return Err(s);
            },
        };
        let mut t = TableReader {
            file_name_: file_name.to_owned(),
            file,
            opt,
            index_block,
            min_key_: Vec::new(),
            max_key_: Vec::new(),
        };
        let min_key = match t.edge_key(false) {
            Ok(k) => k,
            Err(s) => {
                return Err(s);
            },
        };
        let max_key = match t.edge_key(true) {
            Ok(k) => k,
            Err(s) => {
                return Err(s);
            },
        };
        t.min_key_ = min_key;
        t.max_key_ = max_key;
        Ok(t)
    }

    /// The first key of the table, or its last: that of the first, or
    /// last, entry of the data block that the first, or last, index entry
    /// names; empty for a table without data blocks.
    fn edge_key(&self, last: bool) -> (r: MyResult<Vec<u8>>)
        requires
            self.inv(),
        ensures
            table_wf(self.file@) ==> r is Ok && r.unwrap()@ == (if last {
                last_key(table_entries(self.file@))
            } else {
                first_key(table_entries(self.file@))
            }),
    {
        let ghost ikv = self.index_kv();
        let ghost m = ikv.len() as int;
        let ghost good = table_wf(self.file@);
        let ghost j = if last {
            m - 1
        } else {
            0
        };
        proof {
            reveal(data_block);
            if good {
                lemma_table_wf(self.file@);
                lemma_block_wf_ascend(self.index_block.block@);
                lemma_entries_upto(self.file@, ikv, m);
                if m > 0 {
                    assert(data_block_ok(self.file@, ikv, j));
                }
            }
        }
        let mut it = self.index_block.iter();
        if last {
            it.seek_to_last();
        } else {
            it.seek_to_first();
        }
        let hb = match it.current_v() {
            None => {
                return Ok(Vec::new());
            },
            Some(hb) => hb,
        };
        let bh = match BlockHandle::decode(hb.as_slice()) {
            Some((bh, _)) => bh,
            None => {
                return Err(Status::new(StatusCode::InvalidData, "block handle"));
            },
        };
        let block = match self.read_block(&bh) {
            Ok(b) => b,
            Err(s) => {
                return Err(s);
            },
        };
        let mut dit = block.iter();
        if last {
            dit.seek_to_last();
        } else {
            dit.seek_to_first();
        }
        proof {
            if good {
                let n = block_kv(block.block@).len() as int;
                dit.state.lemma_cases(dit.block@);
                if last {
                    lemma_block_position(self.file@, ikv, m, m - 1, n - 1);
                    assert(entries_upto(self.file@, ikv, m) =~= entries_upto(self.file@, ikv, m - 1)
                        + block_entries_at(self.file@, ikv, m - 1));
                } else {
                    lemma_block_position(self.file@, ikv, m, 0, 0);
                }
            }
        }
        Ok(dit.key())
    }

    /// The name of the table's file.
    pub fn file_name(&self) -> (n: &String)
        ensures
            n@ == self.file_name_@,
    {
        &self.file_name_
    }

    /// The size of the table's file.
    pub fn file_size(&self) -> (n: usize)
        ensures
            n == self.file@.len(),
    {
        self.file.len()
    }

    /// The size of the table, for compaction scoring: that of its file.
    pub fn size(&self) -> (n: usize)
        ensures
            n == self.file@.len(),
    {
        self.file.len()
    }

    /// The first key of the table.
    pub fn min_key(&self) -> (k: &Vec<u8>)
        ensures
            k@ == self.min_key_@,
    {
        &self.min_key_
    }

    /// The last key of the table.
    pub fn max_key(&self) -> (k: &Vec<u8>)
        ensures
            k@ == self.max_key_@,
    {
        &self.max_key_
    }

    /// Reads the block that `bh` points at.
    pub fn read_block(&self, bh: &BlockHandle) -> (r: MyResult<Block>)
        ensures
            match r {
                Ok(b) => block_at(self.file@, *bh) == Ok::<Seq<u8>, StatusCode>(b.block@),
                Err(s) => block_at(self.file@, *bh) == Err::<Seq<u8>, StatusCode>(s.code),
            },
    {
        match Block::new_from_location(self.file.as_slice(), bh, self.opt) {
            Ok((b, _)) => Ok(b),
            Err(s) => Err(s),
        }
    }

    /// Whether the one data block that may hold `key` is well formed,
    /// where it can be read at all.
    pub open spec fn block_for_wf(&self, key: Seq<u8>) -> bool {
        let j = first_at_least(self.index_kv(), key);
        j < self.index_kv().len() ==> (data_block(self.file@, self.index_kv()[j].1) matches Ok(b)
            ==> block_wf(b))
    }

    /// The value stored under `key`. The index names the one data block
    /// that may hold the key; an error is that of reading this block. In a
    /// well-formed table the result is what the table's entries hold under
    /// the key.
    pub fn get(&self, key: &[u8]) -> (r: MyResult<Option<Vec<u8>>>)
        ensures
            self.inv() && block_wf(self.index_block.block@) && self.block_for_wf(key@) ==> match r {
                Ok(Some(v)) => table_get(self.file@, self.index_kv(), key@) == Ok::<
                    Option<Seq<u8>>,
                    StatusCode,
                >(Some(v@)),
                Ok(None) => table_get(self.file@, self.index_kv(), key@) == Ok::<
                    Option<Seq<u8>>,
                    StatusCode,
                >(None),
                Err(s) => table_get(self.file@, self.index_kv(), key@) == Err::<
                    Option<Seq<u8>>,
                    StatusCode,
                >(s.code),
            },
            self.wf() ==> match r {
                Ok(Some(v)) => lookup(self.entries(), key@) == Some(v@),
                Ok(None) => lookup(self.entries(), key@).is_none(),
                Err(_) => false,
            },
    {
        let ghost ikv = self.index_kv();
        let ghost good = self.inv() && block_wf(self.index_block.block@) && self.block_for_wf(key@);
        proof {
            reveal(data_block);
            if self.wf() {
                lemma_table_wf(self.file@);
                lemma_table_lookup(self.file@, key@);
                lemma_first_at_least_is(ikv, key@);
                let j = first_at_least(ikv, key@);
                if j < ikv.len() {
                    assert(data_block_ok(self.file@, ikv, j));
                }
                assert(good);
            }
            lemma_first_at_least_is(ikv, key@);
        }
        let mut it = self.index_block.iter();
        it.seek(key);
        let hb = match it.current_v() {
            Some(v) => v,
            None => {
                return Ok(None);
            },
        };
        let bh = match BlockHandle::decode(hb.as_slice()) {
            Some((bh, _)) => bh,
            None => {
                return Err(Status::new(StatusCode::InvalidData, "block handle"));
            },
        };
        let block = match self.read_block(&bh) {
            Ok(b) => b,
            Err(s) => {
                return Err(s);
            },
        };
        let mut dit = block.iter();
        dit.seek(key);
        proof {
            lemma_first_at_least_is(block_kv(block.block@), key@);
        }
        match dit.current_kv() {
            Some((k, v)) => {
                if bytes_eq(k.as_slice(), key) {
                    Ok(Some(v))
                } else {
                    Ok(None)
                }
            },
            None => Ok(None),
        }
    }

    /// A cursor before the first entry of the table.
    pub fn iter(&self) -> (it: TableIter<'_>)
        ensures
            it.table == self,
    {
        TableIter::new(self)
    }
}

} // verus!
