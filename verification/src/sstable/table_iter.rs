//! A cursor over the entries of a table: a cursor over the index block
//! and, inside the data block that it points at, a cursor over entries.

use crate::sstable::block::Block;
use crate::sstable::block_format::{
    block_kv, block_wf, first_at_least, lemma_block_wf_ascend, lemma_first_at_least,
    lemma_first_at_least_is,
};
use crate::sstable::block_handle::BlockHandle;
use crate::sstable::block_iter::{
    position_after_advance, position_after_prev, position_after_seek, BlockIter, BlockIterState,
    Position,
};
use crate::sstable::result::StatusCode;
use crate::sstable::table_format::{
    block_entries_at, data_block, data_block_ok, entries_upto, lemma_block_position,
    lemma_entries_upto, lemma_position_block, lemma_split, lemma_table_wf, table_entries,
};
use crate::sstable::table_reader::TableReader;
use crate::util::{lemma_lex_irreflexive, lemma_lex_le_lt, lemma_lex_le_transitive, lex_le, lex_lt};
use vstd::prelude::*;

verus! {

/// A cursor over a table.
pub struct TableIter<'a> {
    /// The table.
    pub table: &'a TableReader,
    /// Where the cursor stands in the index block.
    pub index_iter: BlockIter<'a>,
    /// Where the cursor stands in the data block.
    pub data_iter_state: BlockIterState,
    /// The data block that the index cursor points at, once it is read.
    pub data_block: Option<Block>,
}

impl<'a> TableIter<'a> {
    /// The number of data blocks of the table.
    pub open spec fn blocks(&self) -> int {
        self.table.index_kv().len() as int
    }

    /// The number of the data block that is loaded: the one that the index
    /// cursor is on, or the last where the index cursor is behind the last.
    pub open spec fn block_index(&self) -> int {
        match self.index_iter.position() {
            Position::At(j) => j,
            _ => self.blocks() - 1,
        }
    }

    /// The number of entries in the data blocks before block `j`.
    pub open spec fn entries_before(&self, j: int) -> int {
        entries_upto(self.table.file@, self.table.index_kv(), j).len() as int
    }

    /// Where the data cursor stands in the loaded block.
    pub open spec fn data_position(&self) -> Position {
        self.data_iter_state.position(self.data_block.unwrap().block@)
    }

    /// The index cursor fits the table: the table is well formed and the
    /// cursor runs over its index block.
    #[verifier::opaque]
    pub open spec fn index_linked(&self) -> bool {
        &&& self.table.wf()
        &&& self.index_iter.block@ == self.table.index_block.block@
        &&& self.index_iter.inv()
    }

    /// The index cursor and the loaded block fit: the index cursor fits
    /// the table, and the loaded block is the one that it names.
    #[verifier::opaque]
    pub open spec fn linked(&self) -> bool {
        &&& self.index_linked()
        &&& match self.data_block {
            None => true,
            Some(b) => {
                &&& self.index_iter.position() != Position::BeforeFirst
                &&& data_block(self.table.file@, self.table.index_kv()[self.block_index()].1)
                    == Ok::<Seq<u8>, StatusCode>(b.block@)
                &&& self.data_iter_state.inv(b.block@)
            },
        }
    }

    /// The cursor fits a well-formed table: it stands before the first
    /// entry with no block loaded, on an entry of the loaded block, or
    /// behind the last entry of the last block.
    #[verifier::opaque]
    pub open spec fn inv(&self) -> bool {
        &&& self.linked()
        &&& match self.data_block {
            None => self.index_iter.position() == Position::BeforeFirst
                && self.data_iter_state.before_first(),
            Some(b) => match self.data_iter_state.position(b.block@) {
                Position::At(_) => true,
                Position::AfterLast => self.index_iter.position() == Position::AfterLast,
                Position::BeforeFirst => false,
            },
        }
    }

    /// Where the cursor stands among the entries of the table.
    #[verifier::opaque]
    pub open spec fn position(&self) -> Position {
        match self.data_block {
            None => Position::BeforeFirst,
            Some(b) => match self.data_iter_state.position(b.block@) {
                Position::At(i) => Position::At(self.entries_before(self.block_index()) + i),
                _ => Position::AfterLast,
            },
        }
    }

    /// The bytes of the index block that the index cursor has not passed.
    pub open spec fn index_left(&self) -> int {
        self.index_iter.block@.len() - self.index_iter.state.offset
    }

    /// The bytes of the loaded block that the data cursor has not passed.
    pub open spec fn data_left(&self) -> int {
        match self.data_block {
            Some(b) => b.block@.len() - self.data_iter_state.offset,
            None => 0,
        }
    }

    /// A step forward has passed bytes: of the index block, or else of
    /// the loaded block.
    pub open spec fn went_on(&self, before: &Self) -> bool {
        ||| 0 <= self.index_left() < before.index_left()
        ||| self.index_left() == before.index_left() && 0 <= self.data_left() < before.data_left()
    }

    /// Whether the cursor is on an entry: a data block is loaded and the
    /// cursor inside it is on an entry.
    pub open spec fn valid_spec(&self) -> bool {
        self.data_block is Some && self.data_iter_state.valid_
    }

    /// The key and value that the cursor is on, in a table that it fits.
    pub open spec fn current_spec(&self) -> Option<(Seq<u8>, Seq<u8>)> {
        match self.position() {
            Position::At(g) => Some(self.table.entries()[g]),
            _ => None,
        }
    }

    /// What an index cursor that fits the table is.
    pub proof fn lemma_index_linked(&self)
        requires
            self.index_linked(),
        ensures
            self.table.wf(),
            self.index_iter.block@ == self.table.index_block.block@,
            self.index_iter.inv(),
            block_wf(self.index_iter.block@),
            block_kv(self.index_iter.block@) == self.table.index_kv(),
            self.entries_before(0) == 0,
            self.entries_before(self.blocks()) == self.table.entries().len(),
            match self.index_iter.position() {
                Position::At(j) => 0 <= j < self.blocks() && self.index_iter.state.valid_
                    && self.index_iter.current_spec() == Some(self.table.index_kv()[j]),
                Position::BeforeFirst => !self.index_iter.state.valid_,
                Position::AfterLast => self.blocks() > 0 && !self.index_iter.state.valid_,
            },
    {
        reveal(TableIter::index_linked);
        lemma_table_wf(self.table.file@);
        self.index_iter.state.lemma_cases(self.index_iter.block@);
        assert(entries_upto(self.table.file@, self.table.index_kv(), 0).len() == 0);
    }

    /// Data block `j` of a well-formed table is well formed and not empty,
    /// and the entries before it and its own are the entries before the
    /// next block.
    pub proof fn lemma_block(&self, j: int)
        requires
            self.index_linked(),
            0 <= j < self.blocks(),
        ensures
            data_block_ok(self.table.file@, self.table.index_kv(), j),
            self.entries_before(j + 1) == self.entries_before(j) + block_entries_at(
                self.table.file@,
                self.table.index_kv(),
                j,
            ).len(),
            block_entries_at(self.table.file@, self.table.index_kv(), j).len() > 0,
            0 <= self.entries_before(j) < self.entries_before(j + 1) <= self.table.entries().len(),
            data_block(self.table.file@, self.table.index_kv()[j].1) matches Ok(b) && block_wf(b)
                && block_kv(b) == block_entries_at(self.table.file@, self.table.index_kv(), j),
    {
        reveal(TableIter::index_linked);
        let file = self.table.file@;
        let ikv = self.table.index_kv();
        let m = ikv.len() as int;
        lemma_table_wf(file);
        assert(data_block_ok(file, ikv, j));
        assert(entries_upto(file, ikv, j + 1) == entries_upto(file, ikv, j) + block_entries_at(
            file,
            ikv,
            j,
        ));
        lemma_split(file, ikv, 0, j);
        lemma_split(file, ikv, j + 1, m);
    }

    /// What a cursor is whose loaded block fits its index cursor.
    pub proof fn lemma_linked(&self)
        requires
            self.linked(),
        ensures
            self.index_linked(),
            self.data_block matches Some(b) ==> {
                &&& self.index_iter.position() != Position::BeforeFirst
                &&& 0 <= self.block_index() < self.blocks()
                &&& data_block(self.table.file@, self.table.index_kv()[self.block_index()].1)
                    == Ok::<Seq<u8>, StatusCode>(b.block@)
                &&& self.data_iter_state.inv(b.block@)
                &&& block_wf(b.block@)
                &&& block_kv(b.block@) == block_entries_at(
                    self.table.file@,
                    self.table.index_kv(),
                    self.block_index(),
                )
                &&& block_kv(b.block@).len() > 0
                &&& match self.data_position() {
                    Position::At(i) => 0 <= i < block_kv(b.block@).len()
                        && self.data_iter_state.valid_,
                    _ => !self.data_iter_state.valid_,
                }
            },
    {
        reveal(TableIter::linked);
        self.lemma_index_linked();
        if let Some(b) = self.data_block {
            self.lemma_block(self.block_index());
            self.data_iter_state.lemma_cases(b.block@);
        }
    }

    /// A cursor without a loaded block fits where its index cursor does.
    pub proof fn lemma_linked_none(&self)
        requires
            self.index_linked(),
            self.data_block is None,
        ensures
            self.linked(),
    {
        reveal(TableIter::linked);
    }

    /// A cursor with a loaded block fits where its index cursor does and
    /// the block is the one that the index cursor names.
    pub proof fn lemma_linked_some(&self)
        requires
            self.index_linked(),
            self.data_block is Some,
            self.index_iter.position() != Position::BeforeFirst,
            data_block(self.table.file@, self.table.index_kv()[self.block_index()].1) == Ok::<
                Seq<u8>,
                StatusCode,
            >(self.data_block.unwrap().block@),
            self.data_iter_state.inv(self.data_block.unwrap().block@),
        ensures
            self.linked(),
    {
        reveal(TableIter::linked);
    }

    /// What a cursor that fits the table is, and where it stands.
    pub proof fn lemma_inv(&self)
        requires
            self.inv(),
        ensures
            self.linked(),
            self.data_block is None ==> self.index_iter.position() == Position::BeforeFirst
                && self.data_iter_state.before_first() && self.position()
                == Position::BeforeFirst,
            self.data_block is Some ==> match self.data_position() {
                Position::At(i) => self.position() == Position::At(
                    self.entries_before(self.block_index()) + i,
                ) && 0 <= self.entries_before(self.block_index()) + i
                    < self.table.entries().len(),
                Position::AfterLast => self.index_iter.position() == Position::AfterLast
                    && self.position() == Position::AfterLast,
                Position::BeforeFirst => false,
            },
    {
        reveal(TableIter::inv);
        reveal(TableIter::position);
        self.lemma_linked();
        if self.data_block is Some {
            self.lemma_block(self.block_index());
        }
    }

    /// A cursor fits the table where its loaded block fits and it stands
    /// before the first entry with no block loaded, on an entry of the
    /// loaded block, or behind the last entry of the last block.
    pub proof fn lemma_inv_intro(&self)
        requires
            self.linked(),
            self.data_block is None ==> self.index_iter.position() == Position::BeforeFirst
                && self.data_iter_state.before_first(),
            self.data_block is Some ==> (self.data_position() matches Position::At(_)) || (
            self.data_position() == Position::AfterLast && self.index_iter.position()
                == Position::AfterLast),
        ensures
            self.inv(),
            self.position() == (match self.data_block {
                None => Position::BeforeFirst,
                Some(b) => match self.data_position() {
                    Position::At(i) => Position::At(self.entries_before(self.block_index()) + i),
                    _ => Position::AfterLast,
                },
            }),
    {
        reveal(TableIter::inv);
        reveal(TableIter::position);
    }

    /// A cursor before the first entry of `table`.
    pub fn new(table: &'a TableReader) -> (it: TableIter<'a>)
        ensures
            it.table == table,
            it.index_iter.block@ == table.index_block.block@,
            it.data_block is None,
            !it.valid_spec(),
            table.wf() ==> it.inv() && it.position() == Position::BeforeFirst,
    {
        let it = TableIter {
            table,
            index_iter: table.index_block.iter(),
            data_iter_state: BlockIterState::new(0),
            data_block: None,
        };
        proof {
            if table.wf() {
                lemma_table_wf(table.file@);
                assert(it.index_linked()) by {
                    reveal(TableIter::index_linked);
                }
                it.lemma_index_linked();
                it.lemma_linked_none();
                it.lemma_inv_intro();
            }
        }
        it
    }

    /// Whether the cursor is on an entry.
    pub fn valid(&self) -> (v: bool)
        ensures
            v == self.valid_spec(),
            self.inv() ==> v == (self.position() matches Position::At(_)),
    {
        proof {
            if self.inv() {
                self.lemma_inv();
                self.lemma_linked();
            }
        }
        self.data_block.is_some() && self.data_iter_state.valid()
    }

    /// Puts the cursor before the first entry.
    pub fn reset(&mut self)
        ensures
            final(self).table == old(self).table,
            final(self).index_iter.block == old(self).index_iter.block,
            final(self).index_iter.state.restarts_offset == old(self).index_iter.state.restarts_offset,
            final(self).index_iter.state.before_first(),
            final(self).data_block is None,
            final(self).data_iter_state.before_first(),
            !final(self).valid_spec(),
            old(self).index_linked() ==> final(self).inv() && final(self).position()
                == Position::BeforeFirst,
    {
        proof {
            if self.index_linked() {
                self.lemma_index_linked();
            }
        }
        self.index_iter.reset();
        self.data_block = None;
        self.data_iter_state.reset();
        proof {
            if old(self).index_linked() {
                assert(self.index_linked()) by {
                    reveal(TableIter::index_linked);
                }
                self.lemma_linked_none();
                self.lemma_inv_intro();
            }
        }
    }

    /// Reads the data block that the index cursor is on and puts the data
    /// cursor before its first entry. Returns whether there was a block to
    /// read and it could be read.
    fn load_block(&mut self) -> (ok: bool)
        ensures
            final(self).table == old(self).table,
            final(self).index_iter == old(self).index_iter,
            ok ==> final(self).data_block is Some && final(self).data_iter_state.before_first(),
            !ok ==> final(self).data_block == old(self).data_block && final(self).data_iter_state
                == old(self).data_iter_state,
            old(self).index_linked() && (old(self).index_iter.position() matches Position::At(_))
                ==> ok && final(self).linked() && final(self).data_position()
                == Position::BeforeFirst,
            old(self).index_linked() && !(old(self).index_iter.position() matches Position::At(_))
                ==> !ok,
    {
        let ghost good = self.index_linked() && (self.index_iter.position() matches Position::At(
            _,
        ));
        proof {
            reveal(data_block);
            if self.index_linked() {
                self.lemma_index_linked();
            }
            if good {
                self.lemma_block(self.block_index());
            }
        }
        let hb = match self.index_iter.current_v() {
            Some(v) => v,
            None => {
                return false;
            },
        };
        let bh = match BlockHandle::decode(hb.as_slice()) {
            Some((bh, _)) => bh,
            None => {
                return false;
            },
        };
        match self.table.read_block(&bh) {
            Ok(block) => {
                self.data_iter_state = BlockIterState::new(block.restarts_offset());
                self.data_block = Some(block);
                proof {
                    if good {
                        assert(self.index_linked()) by {
                            reveal(TableIter::index_linked);
                        }
                        self.lemma_linked_some();
                    }
                }
                true
            },
            Err(_) => false,
        }
    }

    /// Moves the data cursor one entry on in the loaded block.
    fn data_advance(&mut self) -> (ok: bool)
        ensures
            final(self).table == old(self).table,
            final(self).index_iter == old(self).index_iter,
            final(self).data_block == old(self).data_block,
            ok == final(self).valid_spec(),
            ok ==> 0 <= final(self).data_left() < old(self).data_left(),
            old(self).data_block is None ==> final(self).data_iter_state == old(self).data_iter_state,
            old(self).linked() && old(self).data_block is Some ==> final(self).linked() && final(self).data_position() == position_after_advance(
                old(self).data_position(),
                block_kv(old(self).data_block.unwrap().block@).len() as int,
            ),
    {
        proof {
            if self.linked() {
                self.lemma_linked();
            }
        }
        let ok = match &self.data_block {
            Some(b) => self.data_iter_state.advance(b.block.as_slice()),
            None => false,
        };
        proof {
            if old(self).linked() && old(self).data_block is Some {
                assert(self.index_linked()) by {
                    reveal(TableIter::index_linked);
                }
                self.lemma_linked_some();
            }
        }
        ok
    }

    /// Moves the data cursor one entry back in the loaded block.
    fn data_prev(&mut self) -> (ok: bool)
        ensures
            final(self).table == old(self).table,
            final(self).index_iter == old(self).index_iter,
            final(self).data_block == old(self).data_block,
            ok == final(self).valid_spec(),
            old(self).data_block is None ==> final(self).data_iter_state == old(self).data_iter_state,
            old(self).linked() && old(self).data_block is Some ==> final(self).linked() && final(self).data_position() == position_after_prev(
                old(self).data_position(),
                block_kv(old(self).data_block.unwrap().block@).len() as int,
            ),
    {
        proof {
            if self.linked() {
                self.lemma_linked();
            }
        }
        let ok = match &self.data_block {
            Some(b) => self.data_iter_state.prev(b.block.as_slice()),
            None => false,
        };
        proof {
            if old(self).linked() && old(self).data_block is Some {
                assert(self.index_linked()) by {
                    reveal(TableIter::index_linked);
                }
                self.lemma_linked_some();
            }
        }
        ok
    }

    /// Moves the data cursor to the first entry at or above `key` in the
    /// loaded block.
    fn data_seek(&mut self, key: &[u8]) -> (ok: bool)
        ensures
            final(self).table == old(self).table,
            final(self).index_iter == old(self).index_iter,
            final(self).data_block == old(self).data_block,
            ok == final(self).valid_spec(),
            old(self).linked() && old(self).data_block is Some ==> final(self).linked() && final(self).data_position() == position_after_seek(
                block_kv(old(self).data_block.unwrap().block@),
                key@,
            ),
    {
        proof {
            if self.linked() {
                self.lemma_linked();
            }
        }
        let ok = match &self.data_block {
            Some(b) => {
                self.data_iter_state.seek(b.block.as_slice(), key);
                self.data_iter_state.valid()
            },
            None => false,
        };
        proof {
            if old(self).linked() && old(self).data_block is Some {
                assert(self.index_linked()) by {
                    reveal(TableIter::index_linked);
                }
                self.lemma_linked_some();
            }
        }
        ok
    }

    /// Moves the data cursor to the last entry of the loaded block.
    fn data_seek_to_last(&mut self) -> (ok: bool)
        ensures
            final(self).table == old(self).table,
            final(self).index_iter == old(self).index_iter,
            final(self).data_block == old(self).data_block,
            ok == final(self).valid_spec(),
            old(self).linked() && old(self).data_block is Some ==> final(self).linked() && final(self).data_position() == Position::At(
                block_kv(old(self).data_block.unwrap().block@).len() - 1,
            ),
    {
        proof {
            if self.linked() {
                self.lemma_linked();
            }
        }
        let ok = match &self.data_block {
            Some(b) => {
                self.data_iter_state.seek_to_last(b.block.as_slice());
                self.data_iter_state.valid()
            },
            None => false,
        };
        proof {
            if old(self).linked() && old(self).data_block is Some {
                assert(self.index_linked()) by {
                    reveal(TableIter::index_linked);
                }
                self.lemma_linked_some();
            }
        }
        ok
    }

    /// The state from which `next_block` goes on in a well-formed table:
    /// no block loaded and the index cursor before its first entry, or the
    /// data cursor behind the last entry of the loaded block.
    #[verifier::opaque]
    pub open spec fn block_done(&self) -> bool {
        &&& self.linked()
        &&& match self.data_block {
            None => self.index_iter.position() == Position::BeforeFirst
                && self.data_iter_state.before_first(),
            Some(b) => self.data_iter_state.position(b.block@) == Position::AfterLast,
        }
    }

    /// Where `next_block` leads from a state in which the block is done: to
    /// the first entry of the next data block, or behind the last entry.
    pub open spec fn position_after_next_block(&self) -> Position {
        match self.index_iter.position() {
            Position::BeforeFirst => if self.blocks() > 0 {
                Position::At(0)
            } else {
                Position::BeforeFirst
            },
            Position::At(j) => if j + 1 < self.blocks() {
                Position::At(self.entries_before(j + 1))
            } else {
                Position::AfterLast
            },
            Position::AfterLast => Position::AfterLast,
        }
    }

    /// Goes on to the first entry of the next data block that can be read
    /// and is not empty.
    fn next_block(&mut self) -> (ok: bool)
        requires
            !old(self).valid_spec(),
        ensures
            final(self).table == old(self).table,
            final(self).index_iter.block == old(self).index_iter.block,
            ok == final(self).valid_spec(),
            ok ==> 0 <= final(self).index_left() < old(self).index_left(),
            old(self).block_done() ==> final(self).inv() && final(self).position() == old(self).position_after_next_block(),
    {
        let ghost good = self.block_done();
        let ghost s0 = *self;
        loop
            invariant
                self.table == s0.table,
                self.index_iter.block == s0.index_iter.block,
                s0 == *old(self),
                good == s0.block_done(),
                good ==> *self == s0,
                self.index_left() <= s0.index_left(),
                !self.valid_spec(),
            decreases self.index_iter.block@.len() - self.index_iter.state.offset,
        {
            proof {
                if good {
                    reveal(TableIter::block_done);
                    self.lemma_linked();
                    self.lemma_index_linked();
                }
            }
            if !self.index_iter.advance() {
                proof {
                    if good {
                        assert(self.index_linked()) by {
                            reveal(TableIter::index_linked);
                        }
                        self.lemma_index_linked();
                        if self.data_block is None {
                            self.lemma_linked_none();
                        } else {
                            self.lemma_linked_some();
                        }
                        self.lemma_inv_intro();
                    }
                }
                return false;
            }
            proof {
                if good {
                    assert(self.index_linked()) by {
                        reveal(TableIter::index_linked);
                    }
                    self.lemma_index_linked();
                }
            }
            if self.load_block() {
                proof {
                    if good {
                        self.lemma_linked();
                    }
                }
                if self.data_advance() {
                    proof {
                        if good {
                            self.lemma_linked();
                            self.lemma_inv_intro();
                        }
                    }
                    return true;
                }
                proof {
                    if good {
                        self.lemma_linked();
                    }
                    assert(!good);
                }
            }
            assert(!good);
        }
    }

    /// Moves to the next entry of the table: the next of the data block,
    /// or the first of the next data block. From the last entry the cursor
    /// goes behind it and stays there. Returns whether the cursor is on an
    /// entry now.
    pub fn advance(&mut self) -> (ok: bool)
        ensures
            final(self).table == old(self).table,
            final(self).index_iter.block == old(self).index_iter.block,
            ok == final(self).valid_spec(),
            ok ==> final(self).went_on(old(self)),
            old(self).inv() ==> final(self).inv() && final(self).position()
                == position_after_advance(
                old(self).position(),
                old(self).table.entries().len() as int,
            ),
    {
        let ghost good = self.inv();
        let ghost s0 = *self;
        proof {
            if good {
                s0.lemma_inv();
                s0.lemma_linked();
                s0.lemma_index_linked();
                if s0.data_block is Some {
                    s0.lemma_block(s0.block_index());
                }
            }
        }
        if self.data_advance() {
            proof {
                if good {
                    self.lemma_linked();
                    self.lemma_inv_intro();
                }
            }
            return true;
        }
        proof {
            if good {
                if self.data_block is Some {
                    self.lemma_linked();
                }
                assert(self.block_done()) by {
                    reveal(TableIter::block_done);
                }
                match s0.index_iter.position() {
                    Position::At(j) => {
                        if j + 1 < s0.blocks() {
                            s0.lemma_block(j + 1);
                        }
                    },
                    Position::BeforeFirst => {
                        if s0.blocks() > 0 {
                            s0.lemma_block(0);
                        }
                    },
                    Position::AfterLast => {},
                }
            }
        }
        self.next_block()
    }

    /// Moves to the entry before the one that the cursor stood on last.
    /// From the first entry, or from before it, the cursor goes before the
    /// first entry. Returns whether the cursor is on an entry now.
    pub fn prev(&mut self) -> (ok: bool)
        ensures
            final(self).table == old(self).table,
            final(self).index_iter.block == old(self).index_iter.block,
            ok == final(self).valid_spec(),
            old(self).inv() ==> final(self).inv() && final(self).position() == position_after_prev(
                old(self).position(),
                old(self).table.entries().len() as int,
            ),
    {
        let ghost good = self.inv();
        let ghost s0 = *self;
        proof {
            if good {
                s0.lemma_inv();
                s0.lemma_linked();
                s0.lemma_index_linked();
                if s0.data_block is Some {
                    s0.lemma_block(s0.block_index());
                    if s0.block_index() > 0 {
                        s0.lemma_block(s0.block_index() - 1);
                    }
                }
            }
        }
        if self.data_prev() {
            proof {
                if good {
                    self.lemma_linked();
                    self.lemma_inv_intro();
                }
            }
            return true;
        }
        proof {
            if good && self.data_block is Some {
                self.lemma_linked();
            }
        }
        if !self.index_iter.prev() {
            proof {
                if good {
                    assert(self.index_linked()) by {
                        reveal(TableIter::index_linked);
                    }
                    self.lemma_index_linked();
                }
            }
            self.reset();
            return false;
        }
        proof {
            if good {
                assert(self.index_linked()) by {
                    reveal(TableIter::index_linked);
                }
                self.lemma_index_linked();
            }
        }
        if self.load_block() {
            proof {
                if good {
                    self.lemma_linked();
                }
            }
            if self.data_seek_to_last() {
                proof {
                    if good {
                        self.lemma_linked();
                        self.lemma_inv_intro();
                    }
                }
                return true;
            }
            proof {
                if good {
                    self.lemma_linked();
                }
                assert(!good);
            }
        }
        self.reset();
        false
    }

    /// Moves to the last entry of the table.
    pub fn seek_to_last(&mut self)
        ensures
            final(self).table == old(self).table,
            final(self).index_iter.block == old(self).index_iter.block,
            old(self).index_linked() ==> final(self).index_linked() && final(self).inv() && final(self).position() == (if old(self).table.entries().len() > 0 {
                Position::At(old(self).table.entries().len() - 1)
            } else {
                Position::BeforeFirst
            }),
    {
        let ghost good = self.index_linked();
        self.reset();
        proof {
            if good {
                self.lemma_inv();
                self.lemma_linked();
                self.lemma_index_linked();
            }
        }
        self.index_iter.seek_to_last();
        proof {
            if good {
                assert(self.index_linked()) by {
                    reveal(TableIter::index_linked);
                }
                self.lemma_index_linked();
                if self.blocks() > 0 {
                    self.lemma_block(self.blocks() - 1);
                }
            }
        }
        if self.load_block() {
            proof {
                if good {
                    self.lemma_linked();
                }
            }
            if self.data_seek_to_last() {
                proof {
                    if good {
                        self.lemma_linked();
                        self.lemma_inv_intro();
                    }
                }
                return ;
            }
            proof {
                if good {
                    self.lemma_linked();
                }
                assert(!good);
            }
        }
        self.reset();
        proof {
            if good {
                self.lemma_inv();
                self.lemma_linked();
            }
        }
    }

    /// Moves to the first entry of the table whose key is at or above
    /// `key`; behind the last entry where there is none.
    pub fn seek(&mut self, key: &[u8])
        ensures
            final(self).table == old(self).table,
            final(self).index_iter.block == old(self).index_iter.block,
            old(self).index_linked() ==> final(self).inv() && final(self).position()
                == position_after_seek(old(self).table.entries(), key@),
    {
        let ghost good = self.index_linked();
        let ghost ikv = self.table.index_kv();
        let ghost j = first_at_least(ikv, key@);
        self.reset();
        proof {
            if good {
                self.lemma_inv();
                self.lemma_linked();
                self.lemma_index_linked();
                lemma_first_at_least_is(ikv, key@);
            }
        }
        self.index_iter.seek(key);
        proof {
            if good {
                assert(self.index_linked()) by {
                    reveal(TableIter::index_linked);
                }
                self.lemma_index_linked();
            }
        }
        if self.index_iter.valid() {
            if self.load_block() {
                proof {
                    if good {
                        self.lemma_linked();
                        self.lemma_block(j);
                        lemma_first_at_least_is(block_entries_at(self.table.file@, ikv, j), key@);
                    }
                }
                if self.data_seek(key) {
                    proof {
                        if good {
                            self.lemma_linked();
                            self.lemma_inv_intro();
                            self.lemma_global_first(
                                key@,
                                j,
                                first_at_least(block_entries_at(self.table.file@, ikv, j), key@),
                            );
                        }
                    }
                    return ;
                }
                proof {
                    if good {
                        self.lemma_linked();
                        assert(self.block_done()) by {
                            reveal(TableIter::block_done);
                        }
                        self.lemma_global_first(
                            key@,
                            j,
                            first_at_least(block_entries_at(self.table.file@, ikv, j), key@),
                        );
                        if j + 1 < self.blocks() {
                            self.lemma_block(j + 1);
                        }
                    }
                }
            }
            self.next_block();
        } else {
            proof {
                if good {
                    self.lemma_global_first(key@, j, 0);
                    self.lemma_linked_none();
                }
            }
            self.seek_to_last();
            self.advance();
        }
    }

    /// The key that the cursor is on.
    pub fn current_k(&self) -> (k: Option<Vec<u8>>)
        ensures
            k is Some == self.valid_spec(),
            k matches Some(v) ==> v@ == self.data_iter_state.key@,
            self.inv() ==> match self.current_spec() {
                Some(kv) => k is Some && k.unwrap()@ == kv.0,
                None => k is None,
            },
    {
        proof {
            if self.inv() {
                self.lemma_current();
            }
        }
        match &self.data_block {
            Some(_) => self.data_iter_state.current_k(),
            None => None,
        }
    }

    /// The value that the cursor is on.
    pub fn current_v(&self) -> (v: Option<Vec<u8>>)
        ensures
            v is Some ==> self.valid_spec(),
            self.inv() ==> match self.current_spec() {
                Some(kv) => v is Some && v.unwrap()@ == kv.1,
                None => v is None,
            },
    {
        proof {
            if self.inv() {
                self.lemma_current();
            }
        }
        match &self.data_block {
            Some(b) => self.data_iter_state.current_v(b.block.as_slice()),
            None => None,
        }
    }

    /// The key and value that the cursor is on.
    pub fn current_kv(&self) -> (r: Option<(Vec<u8>, Vec<u8>)>)
        ensures
            r is Some ==> self.valid_spec(),
            self.inv() ==> match self.current_spec() {
                Some(kv) => r is Some && r.unwrap().0@ == kv.0 && r.unwrap().1@ == kv.1,
                None => r is None,
            },
    {
        proof {
            if self.inv() {
                self.lemma_current();
            }
        }
        match &self.data_block {
            Some(b) => self.data_iter_state.current_kv(b.block.as_slice()),
            None => None,
        }
    }

    /// The entry of the table at the cursor's position is the entry of the
    /// loaded block that the data cursor is on.
    pub proof fn lemma_current(&self)
        requires
            self.inv(),
        ensures
            match self.data_block {
                Some(b) => self.data_iter_state.inv(b.block@) && self.current_spec()
                    == self.data_iter_state.current_spec(b.block@) && (self.data_iter_state.valid_
                    ==> self.current_spec() is Some && self.current_spec().unwrap().0
                    == self.data_iter_state.key@),
                None => self.current_spec() is None,
            },
    {
        self.lemma_inv();
        self.lemma_linked();
        self.lemma_index_linked();
        if let Some(b) = self.data_block {
            self.data_iter_state.lemma_cases(b.block@);
            if self.data_iter_state.valid_ {
                let j = self.block_index();
                let i = self.data_iter_state.index_of(b.block@);
                self.lemma_block(j);
                lemma_block_position(self.table.file@, self.table.index_kv(), self.blocks(), j, i);
                assert(self.data_position() == Position::At(i));
                assert(self.position() == Position::At(self.entries_before(j) + i));
                assert(self.table.entries() == entries_upto(
                    self.table.file@,
                    self.table.index_kv(),
                    self.blocks(),
                ));
                assert(self.current_spec() == Some(block_kv(b.block@)[i]));
            } else {
                assert(self.current_spec() is None);
                assert(self.data_iter_state.current_spec(b.block@) is None);
            }
        } else {
            assert(self.position() == Position::BeforeFirst);
        }
    }

    /// The number of entries before a block grows with the block's number.
    pub proof fn lemma_before_mono(&self, a: int, b: int)
        requires
            0 <= a <= b,
        ensures
            self.entries_before(a) <= self.entries_before(b),
    {
        lemma_split(self.table.file@, self.table.index_kv(), a, b);
    }

    /// The entry of the table with the number `k` lies in one data block
    /// only: where it is entry `i` of block `j`, `k` is the number of
    /// entries before block `j` plus `i`.
    pub proof fn lemma_block_of(&self, k: int, j: int, i: int)
        requires
            self.index_linked(),
            0 <= j < self.blocks(),
            0 <= i < block_entries_at(self.table.file@, self.table.index_kv(), j).len(),
            0 <= k < self.table.entries().len(),
            self.table.entries()[k] == block_entries_at(
                self.table.file@,
                self.table.index_kv(),
                j,
            )[i],
        ensures
            k == self.entries_before(j) + i,
    {
        let file = self.table.file@;
        let ikv = self.table.index_kv();
        let m = ikv.len() as int;
        let all = self.table.entries();
        self.lemma_index_linked();
        lemma_table_wf(file);
        lemma_entries_upto(file, ikv, m);
        lemma_block_position(file, ikv, m, j, i);
        let g = self.entries_before(j) + i;
        // The keys of the table ascend strictly, so equal keys mean equal numbers.
        if k < g {
            assert(lex_lt(all[k].0, all[g].0));
            lemma_lex_irreflexive(all[k].0);
        } else if g < k {
            assert(lex_lt(all[g].0, all[k].0));
            lemma_lex_irreflexive(all[k].0);
        }
    }

    /// The first entry of the table at or above `key` is entry `i` of data
    /// block `j`, where index entry `j` is the first whose key is at or
    /// above `key` and `i` is the first entry of block `j` at or above
    /// `key`. Where block `j` has no such entry it is the first entry of
    /// the next block; where there is no such index entry, there is no
    /// such entry in the table.
    pub proof fn lemma_global_first(&self, key: Seq<u8>, j: int, i: int)
        requires
            self.index_linked(),
            j == first_at_least(self.table.index_kv(), key),
            j < self.blocks() ==> i == first_at_least(
                block_entries_at(self.table.file@, self.table.index_kv(), j),
                key,
            ),
            j >= self.blocks() ==> i == 0,
        ensures
            first_at_least(self.table.entries(), key) == self.entries_before(j) + i,
    {
        let file = self.table.file@;
        let ikv = self.table.index_kv();
        let m = ikv.len() as int;
        let all = self.table.entries();
        self.lemma_index_linked();
        lemma_table_wf(file);
        lemma_first_at_least_is(ikv, key);
        lemma_entries_upto(file, ikv, m);
        let g = self.entries_before(j) + i;
        if j < m {
            self.lemma_block(j);
            lemma_first_at_least_is(block_entries_at(file, ikv, j), key);
        }
        assert forall|k: int| 0 <= k < g implies lex_lt((#[trigger] all[k]).0, key) by {
            self.lemma_below(key, j, i, k);
        }
        if g < all.len() {
            self.lemma_at_or_above(key, j, i);
        }
        lemma_first_at_least(all, key, g);
    }

    /// A step of `lemma_global_first`: the entries of the table before
    /// entry `i` of block `j` are below `key`.
    proof fn lemma_below(&self, key: Seq<u8>, j: int, i: int, k: int)
        requires
            self.index_linked(),
            j == first_at_least(self.table.index_kv(), key),
            j < self.blocks() ==> i == first_at_least(
                block_entries_at(self.table.file@, self.table.index_kv(), j),
                key,
            ),
            j >= self.blocks() ==> i == 0,
            0 <= k < self.entries_before(j) + i,
        ensures
            k < self.table.entries().len(),
            lex_lt(self.table.entries()[k].0, key),
    {
        let file = self.table.file@;
        let ikv = self.table.index_kv();
        let m = ikv.len() as int;
        let all = self.table.entries();
        self.lemma_index_linked();
        lemma_table_wf(file);
        lemma_first_at_least_is(ikv, key);
        if j < m {
            self.lemma_block(j);
            lemma_first_at_least_is(block_entries_at(file, ikv, j), key);
        }
        let (jj, ii) = lemma_position_block(file, ikv, m, k);
        let blk = block_entries_at(file, ikv, jj);
        self.lemma_block(jj);
        lemma_block_wf_ascend(data_block(file, ikv[jj].1).unwrap());
        self.lemma_block_of(k, jj, ii);
        if jj > j {
            self.lemma_before_mono(j + 1, jj);
        }
        if jj < j {
            let last = blk[blk.len() - 1].0;
            if ii < blk.len() - 1 {
                assert(lex_lt(blk[ii].0, last));
            }
            assert(lex_le(blk[ii].0, last));
            lemma_lex_le_transitive(blk[ii].0, last, ikv[jj].0);
            lemma_lex_le_lt(blk[ii].0, ikv[jj].0, key);
        }
    }

    /// A step of `lemma_global_first`: the entry of the table at entry `i`
    /// of block `j`, if there is one, is at or above `key`.
    proof fn lemma_at_or_above(&self, key: Seq<u8>, j: int, i: int)
        requires
            self.index_linked(),
            j == first_at_least(self.table.index_kv(), key),
            j < self.blocks() ==> i == first_at_least(
                block_entries_at(self.table.file@, self.table.index_kv(), j),
                key,
            ),
            j >= self.blocks() ==> i == 0,
            0 <= self.entries_before(j) + i < self.table.entries().len(),
        ensures
            lex_le(key, self.table.entries()[self.entries_before(j) + i].0),
    {
        let file = self.table.file@;
        let ikv = self.table.index_kv();
        let m = ikv.len() as int;
        let all = self.table.entries();
        let g = self.entries_before(j) + i;
        self.lemma_index_linked();
        lemma_table_wf(file);
        lemma_first_at_least_is(ikv, key);
        if j >= m {
            self.lemma_before_mono(m, j);
        } else {
            self.lemma_block(j);
            let blk = block_entries_at(file, ikv, j);
            lemma_first_at_least_is(blk, key);
            if i < blk.len() {
                lemma_block_position(file, ikv, m, j, i);
            } else {
                // The first entry of the block behind block j.
                self.lemma_block(j + 1);
                let nb = block_entries_at(file, ikv, j + 1);
                lemma_block_position(file, ikv, m, j + 1, 0);
                assert(data_block_ok(file, ikv, j + 1));
                lemma_lex_le_lt(key, ikv[j].0, nb[0].0);
            }
        }
    }
}

} // verus!
