//! The layout of a table file, as a mathematical reading of its bytes:
//! data blocks, then the index block, then the footer. An index entry has
//! a key at or above every key of its data block and below every key of
//! the next, and the data block's handle as its value.

use crate::sstable::block::{block_at, bytes_at, decode_frame};
use crate::sstable::block_format::{
    block_kv, block_wf, first_at_least, keys_ascend, lemma_block_wf_ascend, lemma_first_at_least,
    lemma_first_at_least_is, lemma_keys_ascend_all,
};
use crate::sstable::block_handle::{handle_decode, BlockHandle};
use crate::sstable::footer::footer_decode;
use crate::sstable::result::StatusCode;
use crate::util::{
    lemma_lex_le_lt, lemma_lex_le_transitive, lemma_lex_total, lemma_lex_transitive, lex_le,
    lex_lt,
};
use vstd::prelude::*;

verus! {

/// A run of keys and values.
pub type Entries = Seq<(Seq<u8>, Seq<u8>)>;

/// The value stored under `key` in an ascending run: that of the first
/// entry at or above `key`, if its key is `key`.
pub open spec fn lookup(kv: Entries, key: Seq<u8>) -> Option<Seq<u8>> {
    let i = first_at_least(kv, key);
    if i < kv.len() && kv[i].0 == key {
        Some(kv[i].1)
    } else {
        None
    }
}

/// Where the index block of a table lies: what the footer says.
pub open spec fn index_handle(file: Seq<u8>) -> Option<BlockHandle> {
    if file.len() < 48 {
        None
    } else {
        footer_decode(file.subrange(file.len() - 48, file.len() as int))
    }
}

/// The index block of a table; `InvalidData` for a file without a footer,
/// else what reading the block at the footer's handle gives.
#[verifier::opaque]
pub open spec fn table_index(file: Seq<u8>) -> Result<Seq<u8>, StatusCode> {
    match index_handle(file) {
        None => Err(StatusCode::InvalidData),
        Some(h) => block_at(file, h),
    }
}

/// The data block that an index entry's value points at; `InvalidData`
/// where the value is no handle.
#[verifier::opaque]
pub open spec fn data_block(file: Seq<u8>, handle_bytes: Seq<u8>) -> Result<Seq<u8>, StatusCode> {
    match handle_decode(handle_bytes) {
        None => Err(StatusCode::InvalidData),
        Some((h, _)) => block_at(file, h),
    }
}

/// The keys and values of data block `j` of a table with the index `ikv`.
pub open spec fn block_entries_at(file: Seq<u8>, ikv: Entries, j: int) -> Entries {
    match data_block(file, ikv[j].1) {
        Ok(b) => block_kv(b),
        Err(_) => Seq::empty(),
    }
}

/// The keys and values of the data blocks `0..m`, one block after the other.
pub open spec fn entries_upto(file: Seq<u8>, ikv: Entries, m: int) -> Entries
    decreases m,
{
    if m <= 0 {
        Seq::empty()
    } else {
        entries_upto(file, ikv, m - 1) + block_entries_at(file, ikv, m - 1)
    }
}

/// Data block `j` of a table with the index `ikv` is as it should be: it
/// can be read, is well formed and not empty, its keys are at or below the
/// key of its index entry, and above the key of the index entry before.
pub open spec fn data_block_ok(file: Seq<u8>, ikv: Entries, j: int) -> bool {
    &&& data_block(file, ikv[j].1) matches Ok(b) && block_wf(b) && block_kv(b).len() > 0
        && lex_le(block_kv(b)[block_kv(b).len() - 1].0, ikv[j].0) && (j > 0 ==> lex_lt(
        ikv[j - 1].0,
        block_kv(b)[0].0,
    ))
}

/// The table is well formed: its index block can be read and is well
/// formed, and every data block is as it should be.
#[verifier::opaque]
pub open spec fn table_wf(file: Seq<u8>) -> bool {
    &&& table_index(file) matches Ok(ib) && block_wf(ib) && forall|j: int|
        0 <= j < block_kv(ib).len() ==> data_block_ok(file, block_kv(ib), j)
}

/// What a well-formed table is.
pub proof fn lemma_table_wf(file: Seq<u8>)
    requires
        table_wf(file),
    ensures
        table_index(file) is Ok,
        block_wf(table_index(file).unwrap()),
        keys_ascend(block_kv(table_index(file).unwrap())),
        forall|j: int|
            0 <= j < block_kv(table_index(file).unwrap()).len() ==> #[trigger] data_block_ok(
                file,
                block_kv(table_index(file).unwrap()),
                j,
            ),
{
    reveal(table_wf);
    lemma_block_wf_ascend(table_index(file).unwrap());
}

/// The keys and values of a table, in order.
pub open spec fn table_entries(file: Seq<u8>) -> Entries {
    match table_index(file) {
        Ok(ib) => entries_upto(file, block_kv(ib), block_kv(ib).len() as int),
        Err(_) => Seq::empty(),
    }
}

/// What a point lookup in a table gives, going by the index alone: the
/// first index entry at or above `key` names the one data block that may
/// hold `key`; the value is what that block holds under `key`. An error is
/// that of reading the block.
pub open spec fn table_get(file: Seq<u8>, ikv: Entries, key: Seq<u8>) -> Result<
    Option<Seq<u8>>,
    StatusCode,
> {
    let j = first_at_least(ikv, key);
    if j >= ikv.len() {
        Ok(None)
    } else {
        match data_block(file, ikv[j].1) {
            Err(c) => Err(c),
            Ok(b) => Ok(lookup(block_kv(b), key)),
        }
    }
}

/// All keys of the first `m` data blocks are at or below the key of index
/// entry `m - 1`, and the run is ascending.
pub proof fn lemma_entries_upto(file: Seq<u8>, ikv: Entries, m: int)
    requires
        0 <= m <= ikv.len(),
        keys_ascend(ikv),
        forall|j: int| 0 <= j < m ==> data_block_ok(file, ikv, j),
    ensures
        keys_ascend(entries_upto(file, ikv, m)),
        m > 0 ==> entries_upto(file, ikv, m).len() > 0 && lex_le(
            entries_upto(file, ikv, m)[entries_upto(file, ikv, m).len() - 1].0,
            ikv[m - 1].0,
        ),
    decreases m,
{
    if m > 0 {
        lemma_entries_upto(file, ikv, m - 1);
        let before = entries_upto(file, ikv, m - 1);
        let blk = block_entries_at(file, ikv, m - 1);
        let all = entries_upto(file, ikv, m);
        assert(data_block_ok(file, ikv, m - 1));
        assert(all =~= before + blk);
        lemma_block_wf_ascend(data_block(file, ikv[m - 1].1).unwrap());
        assert forall|i: int, j: int| 0 <= i < j < all.len() implies lex_lt(
            (#[trigger] all[i]).0,
            (#[trigger] all[j]).0,
        ) by {
            if j < before.len() {
                assert(lex_lt(before[i].0, before[j].0));
            } else if i >= before.len() {
                assert(lex_lt(blk[i - before.len()].0, blk[j - before.len()].0));
            } else {
                let last = before[before.len() - 1].0;
                let first = blk[0].0;
                if i < before.len() - 1 {
                    assert(lex_lt(before[i].0, last));
                }
                assert(lex_le(all[i].0, last));
                lemma_lex_le_lt(last, ikv[m - 2].0, first);
                lemma_lex_le_lt(all[i].0, last, first);
                if j > before.len() {
                    assert(lex_lt(blk[0].0, blk[j - before.len()].0));
                    lemma_lex_transitive(all[i].0, first, all[j].0);
                }
            }
        }
        assert(all[all.len() - 1] == blk[blk.len() - 1]);
    }
}

/// The entries of the first `a` blocks are the front of those of the first `b`.
pub proof fn lemma_split(file: Seq<u8>, ikv: Entries, a: int, b: int)
    requires
        0 <= a <= b,
    ensures
        entries_upto(file, ikv, a).len() <= entries_upto(file, ikv, b).len(),
        forall|k: int|
            0 <= k < entries_upto(file, ikv, a).len() ==> entries_upto(file, ikv, b)[k]
                == entries_upto(file, ikv, a)[k],
    decreases b - a,
{
    if a < b {
        lemma_split(file, ikv, a, b - 1);
    }
}

/// Entry `i` of data block `j` is an entry of the table.
pub proof fn lemma_block_position(file: Seq<u8>, ikv: Entries, m: int, j: int, i: int)
    requires
        0 <= j < m,
        0 <= i < block_entries_at(file, ikv, j).len(),
    ensures
        0 <= entries_upto(file, ikv, j).len() + i < entries_upto(file, ikv, m).len(),
        entries_upto(file, ikv, m)[entries_upto(file, ikv, j).len() + i] == block_entries_at(
            file,
            ikv,
            j,
        )[i],
{
    lemma_split(file, ikv, j + 1, m);
    assert(entries_upto(file, ikv, j + 1) =~= entries_upto(file, ikv, j) + block_entries_at(
        file,
        ikv,
        j,
    ));
}

/// Every entry of the table is an entry of one of its data blocks.
pub proof fn lemma_position_block(file: Seq<u8>, ikv: Entries, m: int, p: int) -> (r: (int, int))
    requires
        0 <= p < entries_upto(file, ikv, m).len(),
    ensures
        0 <= r.0 < m,
        0 <= r.1 < block_entries_at(file, ikv, r.0).len(),
        entries_upto(file, ikv, m)[p] == block_entries_at(file, ikv, r.0)[r.1],
    decreases m,
{
    if m <= 0 {
        (0, 0)
    } else {
        let before = entries_upto(file, ikv, m - 1);
        if p < before.len() {
            lemma_position_block(file, ikv, m - 1, p)
        } else {
            (m - 1, p - before.len())
        }
    }
}

/// In an ascending run a key that occurs is found, with its value.
pub proof fn lemma_lookup_found(kv: Entries, i: int)
    requires
        keys_ascend(kv),
        0 <= i < kv.len(),
    ensures
        first_at_least(kv, kv[i].0) == i,
        lookup(kv, kv[i].0) == Some(kv[i].1),
{
    lemma_first_at_least(kv, kv[i].0, i);
}

/// A key of data block `j` is looked for in block `j`: index entry `j` is
/// the first whose key is at or above it.
pub proof fn lemma_key_block(file: Seq<u8>, ikv: Entries, j: int, i: int)
    requires
        keys_ascend(ikv),
        0 <= j < ikv.len(),
        forall|k: int| 0 <= k < ikv.len() ==> data_block_ok(file, ikv, k),
        0 <= i < block_entries_at(file, ikv, j).len(),
    ensures
        first_at_least(ikv, block_entries_at(file, ikv, j)[i].0) == j,
{
    let blk = block_entries_at(file, ikv, j);
    let key = blk[i].0;
    assert(data_block_ok(file, ikv, j));
    let last = blk[blk.len() - 1].0;
    lemma_block_wf_ascend(data_block(file, ikv[j].1).unwrap());
    if i < blk.len() - 1 {
        assert(lex_lt(blk[i].0, blk[blk.len() - 1].0));
    }
    assert(lex_le(key, last));
    lemma_lex_le_transitive(key, last, ikv[j].0);
    assert forall|k: int| 0 <= k < j implies lex_lt((#[trigger] ikv[k]).0, key) by {
        if k < j - 1 {
            assert(lex_lt(ikv[k].0, ikv[j - 1].0));
        }
        assert(lex_le(ikv[k].0, ikv[j - 1].0));
        if i > 0 {
            assert(lex_lt(blk[0].0, blk[i].0));
        }
        assert(lex_le(blk[0].0, key));
        lemma_lex_le_lt(ikv[k].0, ikv[j - 1].0, blk[0].0);
        lemma_lex_le_lt(ikv[k].0, blk[0].0, key);
    }
    lemma_first_at_least(ikv, key, j);
}

/// A well-formed table holds ascending keys, and a point lookup that goes
/// by the index finds what the whole run of entries holds under the key.
pub proof fn lemma_table_lookup(file: Seq<u8>, key: Seq<u8>)
    requires
        table_wf(file),
    ensures
        keys_ascend(table_entries(file)),
        table_get(file, block_kv(table_index(file).unwrap()), key) == Ok::<
            Option<Seq<u8>>,
            StatusCode,
        >(lookup(table_entries(file), key)),
{
    lemma_table_wf(file);
    let ib = table_index(file).unwrap();
    let ikv = block_kv(ib);
    let m = ikv.len() as int;
    let all = table_entries(file);
    lemma_block_wf_ascend(ib);
    lemma_entries_upto(file, ikv, m);
    let j = first_at_least(ikv, key);
    lemma_first_at_least_is(ikv, key);
    let found = lookup(all, key);
    if found.is_some() {
        let p = first_at_least(all, key);
        lemma_first_at_least_is(all, key);
        let (jj, i) = lemma_position_block(file, ikv, m, p);
        lemma_key_block(file, ikv, jj, i);
        assert(jj == j);
        assert(data_block_ok(file, ikv, j));
        lemma_block_wf_ascend(data_block(file, ikv[j].1).unwrap());
        lemma_lookup_found(block_entries_at(file, ikv, j), i);
    } else if j < m {
        assert(data_block_ok(file, ikv, j));
        lemma_block_wf_ascend(data_block(file, ikv[j].1).unwrap());
        let blk = block_entries_at(file, ikv, j);
        if lookup(blk, key).is_some() {
            let i = first_at_least(blk, key);
            lemma_first_at_least_is(blk, key);
            lemma_block_position(file, ikv, m, j, i);
            lemma_lookup_found(all, entries_upto(file, ikv, j).len() + i);
        }
    }
}

/// Round trip of a table: a lookup in a well-formed table gives for every
/// key of its entries the value stored with it, and nothing for a key
/// that none of its entries has.
pub proof fn lemma_table_round_trip(file: Seq<u8>, key: Seq<u8>)
    requires
        table_wf(file),
    ensures
        forall|i: int|
            0 <= i < table_entries(file).len() && (#[trigger] table_entries(file)[i]).0 == key
                ==> table_get(file, block_kv(table_index(file).unwrap()), key) == Ok::<
                Option<Seq<u8>>,
                StatusCode,
            >(Some(table_entries(file)[i].1)),
        (forall|i: int|
            0 <= i < table_entries(file).len() ==> (#[trigger] table_entries(file)[i]).0 != key)
            ==> table_get(file, block_kv(table_index(file).unwrap()), key) == Ok::<
            Option<Seq<u8>>,
            StatusCode,
        >(None),
{
    let kv = table_entries(file);
    lemma_table_lookup(file, key);
    lemma_first_at_least_is(kv, key);
    assert forall|i: int| 0 <= i < kv.len() && (#[trigger] kv[i]).0 == key implies lookup(kv, key)
        == Some(kv[i].1) by {
        lemma_lookup_found(kv, i);
    }
}

} // verus!
