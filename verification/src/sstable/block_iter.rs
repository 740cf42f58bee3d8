//! A cursor over the entries of a block.

use crate::coding::{get_fixed32, get_varint};
use crate::sstable::block_format::{
    block_entries, block_kv, block_wf, entry_at_offset, first_at_least, is_chain, is_restart_entry,
    keys_ascend, kv_of, lemma_chain_entry, lemma_chain_of_parse, lemma_chain_start_unique,
    lemma_first_at_least, lemma_keys_ascend_all, lemma_parse_entry_bounds, lemma_restart_entry,
    parse_entry, restart_count_of, restart_point, restarts_fit, restarts_offset_of,
    trailer_count, Entry,
};
use crate::util::{
    bytes_lt, copy_range, extend_from_range, lemma_lex_le_iff_not_gt, lemma_lex_transitive,
    lex_le, lex_lt,
};
use vstd::prelude::*;

verus! {

/// Where a cursor stands in a run of entries.
pub enum Position {
    /// Before the first entry: where a new or reset cursor stands.
    BeforeFirst,
    /// On the entry with this index.
    At(int),
    /// Behind the last entry: where a cursor stands that was moved forward
    /// from the last entry, or sought a key above all keys.
    AfterLast,
}

/// Where a cursor stands after a step forward, over `n` entries.
pub open spec fn position_after_advance(p: Position, n: int) -> Position {
    match p {
        Position::BeforeFirst => if n > 0 {
            Position::At(0)
        } else {
            Position::BeforeFirst
        },
        Position::At(i) => if i + 1 < n {
            Position::At(i + 1)
        } else {
            Position::AfterLast
        },
        Position::AfterLast => Position::AfterLast,
    }
}

/// Where a cursor stands after a step back, over `n` entries. The step back
/// goes to the entry before the one that the cursor stood on last, so from
/// behind the last entry it leads to the last but one.
pub open spec fn position_after_prev(p: Position, n: int) -> Position {
    match p {
        Position::BeforeFirst => Position::BeforeFirst,
        Position::At(i) => if i > 0 {
            Position::At(i - 1)
        } else {
            Position::BeforeFirst
        },
        Position::AfterLast => if n >= 2 {
            Position::At(n - 2)
        } else {
            Position::BeforeFirst
        },
    }
}

/// Where a cursor stands after seeking `key`: on the first entry whose key
/// is at or above `key`, or behind the last where there is none.
pub open spec fn position_after_seek(kv: Seq<(Seq<u8>, Seq<u8>)>, key: Seq<u8>) -> Position {
    if kv.len() == 0 {
        Position::BeforeFirst
    } else if first_at_least(kv, key) < kv.len() {
        Position::At(first_at_least(kv, key))
    } else {
        Position::AfterLast
    }
}

/// The state of a cursor, apart from the block it runs over.
#[derive(Debug)]
pub struct BlockIterState {
    /// Where the entries of the block end.
    pub restarts_offset: usize,
    /// Where the entry after the current one starts.
    pub offset: usize,
    /// Where the current entry starts.
    pub current: usize,
    /// The key of the current entry.
    pub key: Vec<u8>,
    /// Where the value of the current entry starts.
    pub val_offset: usize,
    /// The length of the value of the current entry.
    pub val_len: usize,
    /// Whether the cursor is on an entry.
    pub valid_: bool,
}

/// The number of restart points of a block whose entries end at `limit`;
/// 0 where the trailer does not say so.
fn restart_count(block: &[u8], limit: usize) -> (n: usize)
    requires
        limit <= block@.len(),
    ensures
        n > 0 ==> limit + 4 * n + 4 == block@.len(),
        trailer_count(block@) is Some && limit == restarts_offset_of(block@) ==> n
            == restart_count_of(block@),
{
    let len = block.len();
    if len < 4 || len - 4 < limit {
        return 0;
    }
    let c = get_fixed32(block, len - 4) as usize;
    assert(block@.subrange(len - 4, len - 4 + 4) == block@.subrange(len - 4, len as int));
    let room = len - 4 - limit;
    if room % 4 == 0 && room / 4 == c {
        c
    } else {
        0
    }
}

/// Restart offset number `r`.
fn restart_at(block: &[u8], limit: usize, r: usize) -> (off: usize)
    requires
        limit + 4 * r + 4 <= block@.len(),
    ensures
        off == restart_point(block@, limit as int, r as int),
{
    let len = block.len();
    get_fixed32(block, limit + 4 * r) as usize
}

impl BlockIterState {
    /// The cursor is before the first entry.
    pub open spec fn before_first(&self) -> bool {
        &&& !self.valid_
        &&& self.offset == 0
        &&& self.current == 0
        &&& self.key@.len() == 0
    }

    /// The cursor holds the entry `e`.
    pub open spec fn holds(&self, e: Entry) -> bool {
        &&& self.valid_
        &&& self.current == e.start
        &&& self.offset == e.next
        &&& self.key@ == e.key
        &&& self.val_len == e.value.len()
        &&& self.val_offset + self.val_len == e.next
    }

    /// The cursor is on entry `i` of `es`.
    pub open spec fn at(&self, es: Seq<Entry>, i: int) -> bool {
        0 <= i < es.len() && self.holds(es[i])
    }

    /// The cursor is behind the last entry of `es`.
    pub open spec fn after_last(&self, es: Seq<Entry>) -> bool {
        &&& !self.valid_
        &&& es.len() > 0
        &&& self.offset == es[es.len() - 1].next
        &&& self.current == es[es.len() - 1].start
    }

    /// The cursor fits the block: the block is well formed, the cursor
    /// knows where its entries end, and it stands before the first entry,
    /// on an entry or behind the last.
    #[verifier::opaque]
    pub open spec fn inv(&self, data: Seq<u8>) -> bool {
        &&& block_wf(data)
        &&& self.restarts_offset == restarts_offset_of(data)
        &&& {
            let es = block_entries(data).unwrap();
            ||| self.before_first()
            ||| self.after_last(es)
            ||| exists|i: int| self.at(es, i)
        }
    }

    /// Where the cursor stands in the block.
    pub open spec fn position(&self, data: Seq<u8>) -> Position {
        if self.valid_ {
            Position::At(entry_at_offset(block_entries(data).unwrap(), self.current as int))
        } else if self.offset == 0 && self.current == 0 {
            Position::BeforeFirst
        } else {
            Position::AfterLast
        }
    }

    /// A cursor before the first entry of a block whose entries end at
    /// `restarts_offset`.
    pub fn new(restarts_offset: usize) -> (s: BlockIterState)
        ensures
            s.restarts_offset == restarts_offset,
            s.before_first(),
            forall|data: Seq<u8>| #[trigger]
                block_wf(data) && restarts_offset == restarts_offset_of(data) ==> s.inv(data)
                    && s.position(data) == Position::BeforeFirst,
    {
        proof {
            reveal(BlockIterState::inv);
        }
        BlockIterState {
            restarts_offset,
            offset: 0,
            current: 0,
            key: Vec::new(),
            val_offset: 0,
            val_len: 0,
            valid_: false,
        }
    }

    /// Puts the cursor before the first entry.
    pub fn reset(&mut self)
        ensures
            final(self).restarts_offset == old(self).restarts_offset,
            final(self).before_first(),
            forall|data: Seq<u8>| #[trigger]
                old(self).inv(data) ==> final(self).inv(data) && final(self).position(data)
                    == Position::BeforeFirst,
    {
        proof {
            reveal(BlockIterState::inv);
        }
        self.offset = 0;
        self.current = 0;
        self.key.clear();
        self.val_offset = 0;
        self.val_len = 0;
        self.valid_ = false;
    }

    /// Whether the cursor is on an entry.
    pub fn valid(&self) -> (v: bool)
        ensures
            v == self.valid_,
    {
        self.valid_
    }

    /// Where the entries end, as far as the block has that many bytes.
    fn limit(&self, block: &[u8]) -> (l: usize)
        ensures
            l <= block@.len(),
            self.restarts_offset <= block@.len() ==> l == self.restarts_offset,
    {
        if self.restarts_offset <= block.len() {
            self.restarts_offset
        } else {
            0
        }
    }

    /// Puts the cursor in front of the entry that starts at `off`, with no
    /// key before it.
    fn jump(&mut self, off: usize)
        ensures
            final(self).restarts_offset == old(self).restarts_offset,
            !final(self).valid_,
            final(self).offset == off,
            final(self).current == off,
            final(self).key@.len() == 0,
    {
        self.reset();
        self.offset = off;
        self.current = off;
    }

    /// Reads the entry that starts where the current one ends. Where there
    /// is no well-shaped entry the cursor is reset.
    fn step(&mut self, block: &[u8], limit: usize) -> (ok: bool)
        requires
            limit <= block@.len(),
        ensures
            final(self).restarts_offset == old(self).restarts_offset,
            ok == final(self).valid_,
            match parse_entry(block@, old(self).offset as int, limit as int, old(self).key@) {
                Some(e) => ok && final(self).holds(e),
                None => !ok && final(self).before_first(),
            },
    {
        proof {
            reveal(parse_entry);
        }
        let off = self.offset;
        if off >= limit {
            self.reset();
            return false;
        }
        let (shared, e1) = match get_varint(block, off, limit) {
            Some(x) => x,
            None => {
                self.reset();
                return false;
            },
        };
        let (non_shared, e2) = match get_varint(block, e1, limit) {
            Some(x) => x,
            None => {
                self.reset();
                return false;
            },
        };
        let (vlen, e3) = match get_varint(block, e2, limit) {
            Some(x) => x,
            None => {
                self.reset();
                return false;
            },
        };
        let room = (limit - e3) as u64;
        if shared > self.key.len() as u64 || non_shared > room || vlen > room - non_shared {
            self.reset();
            return false;
        }
        let ghost prev = self.key@;
        let ns = non_shared as usize;
        let vl = vlen as usize;
        self.key.truncate(shared as usize);
        extend_from_range(&mut self.key, block, e3, e3 + ns);
        self.current = off;
        self.val_offset = e3 + ns;
        self.val_len = vl;
        self.offset = e3 + ns + vl;
        self.valid_ = true;
        proof {
            assert(self.key@ =~= prev.take(shared as int) + block@.subrange(
                e3 as int,
                e3 + ns as int,
            ));
        }
        true
    }

    /// Moves to the next entry. From before the first entry this is the
    /// first; from the last entry the cursor goes behind it and stays
    /// there. Returns whether the cursor is on an entry now.
    pub fn advance(&mut self, block: &[u8]) -> (ok: bool)
        ensures
            ok == final(self).valid_,
            final(self).restarts_offset == old(self).restarts_offset,
            ok ==> old(self).offset < final(self).offset <= block@.len(),
            !ok ==> final(self).offset == 0 || final(self).offset == old(self).offset,
            old(self).inv(block@) ==> final(self).inv(block@) && final(self).position(block@)
                == position_after_advance(
                old(self).position(block@),
                block_kv(block@).len() as int,
            ),
    {
        let limit = self.limit(block);
        proof {
            reveal(BlockIterState::inv);
        }
        let ghost good = self.inv(block@);
        let ghost es = block_entries(block@).unwrap();
        let ghost i0 = self.index_of(block@);
        proof {
            if good {
                lemma_wf_chain(block@);
                self.lemma_cases(block@);
            }
            lemma_parse_entry_bounds(block@, self.offset as int, limit as int, self.key@);
        }
        if self.offset >= limit {
            self.valid_ = false;
            proof {
                if good {
                    if old(self).valid_ {
                        lemma_chain_entry(block@, limit as int, es, i0);
                        assert(self.after_last(es));
                    }
                }
            }
            return false;
        }
        let ghost prev = self.key@;
        let ok = self.step(block, limit);
        proof {
            if good {
                if old(self).valid_ {
                    lemma_chain_entry(block@, limit as int, es, i0);
                    assert(i0 + 1 < es.len());
                    assert(parse_entry(block@, es[i0].next, limit as int, es[i0].key) == Some(
                        es[i0 + 1],
                    ));
                    assert(self.at(es, i0 + 1));
                    self.lemma_position_at(block@, i0 + 1);
                } else {
                    assert(old(self).before_first());
                    assert(prev =~= Seq::<u8>::empty());
                    assert(self.at(es, 0));
                    self.lemma_position_at(block@, 0);
                }
            }
        }
        ok
    }

    /// Moves to the entry before the one that the cursor stood on last.
    /// From the first entry, or from before it, the cursor goes before
    /// the first entry. Returns whether the cursor is on an entry now.
    pub fn prev(&mut self, block: &[u8]) -> (ok: bool)
        ensures
            ok == final(self).valid_,
            final(self).restarts_offset == old(self).restarts_offset,
            old(self).inv(block@) ==> final(self).inv(block@) && final(self).position(block@)
                == position_after_prev(
                old(self).position(block@),
                block_kv(block@).len() as int,
            ),
    {
        let limit = self.limit(block);
        proof {
            reveal(BlockIterState::inv);
        }
        let ghost good = self.inv(block@);
        let ghost es = block_entries(block@).unwrap();
        let ghost i0 = if self.valid_ {
            self.index_of(block@)
        } else {
            es.len() - 1
        };
        proof {
            if good {
                lemma_wf_chain(block@);
                self.lemma_cases(block@);
                if i0 >= 0 {
                    lemma_chain_entry(block@, limit as int, es, i0);
                }
                if i0 > 0 {
                    lemma_chain_start_unique(block@, limit as int, es, 0, i0);
                    lemma_chain_entry(block@, limit as int, es, 0);
                }
            }
        }
        let orig = self.current;
        if orig == 0 {
            self.reset();
            return false;
        }
        let n = restart_count(block, limit);
        if n == 0 {
            self.reset();
            return false;
        }
        let mut lo: usize = 0;
        let mut hi: usize = n - 1;
        while lo < hi
            invariant
                0 <= lo <= hi < n,
                limit + 4 * n + 4 == block@.len(),
                good ==> restart_point(block@, limit as int, lo as int) < orig,
            decreases hi - lo,
        {
            let mid = lo + (hi - lo + 1) / 2;
            if restart_at(block, limit, mid) < orig {
                lo = mid;
            } else {
                hi = mid - 1;
            }
        }
        let start = restart_at(block, limit, lo);
        if start >= orig {
            self.reset();
            return false;
        }
        self.jump(start);
        let ghost mut j: int = 0;
        proof {
            if good {
                assert(is_restart_entry(es, start as int));
                lemma_restart_entry(block@, limit as int, es, start as int, self.key@);
                j = entry_at_offset(es, start as int);
                lemma_chain_start_unique(block@, limit as int, es, j, i0);
            }
        }
        loop
            invariant_except_break
                self.offset < orig,
                good ==> 0 <= j < i0 && self.offset == es[j].start && parse_entry(
                    block@,
                    self.offset as int,
                    limit as int,
                    self.key@,
                ) == Some(es[j]),
            invariant
                limit <= block@.len(),
                self.restarts_offset == old(self).restarts_offset,
                good ==> block_facts(block@, limit as int, n as int, es),
                good ==> 0 < i0 < es.len() && orig == es[i0].start,
            ensures
                good ==> self.at(es, i0 - 1),
            decreases limit - self.offset,
        {
            proof {
                reveal(BlockIterState::inv);
                lemma_parse_entry_bounds(block@, self.offset as int, limit as int, self.key@);
            }
            let ok = self.step(block, limit);
            if !ok {
                break ;
            }
            if self.offset >= orig {
                proof {
                    if good {
                        lemma_chain_entry(block@, limit as int, es, j);
                        if j + 1 < i0 {
                            lemma_chain_start_unique(block@, limit as int, es, j + 1, i0);
                        }
                    }
                }
                break ;
            }
            proof {
                if good {
                    lemma_chain_entry(block@, limit as int, es, j);
                    lemma_chain_start_unique(block@, limit as int, es, j + 1, i0);
                    assert(parse_entry(block@, es[j].next, limit as int, es[j].key) == Some(
                        es[j + 1],
                    ));
                    j = j + 1;
                }
            }
        }
        proof {
            if good {
                self.lemma_position_at(block@, i0 - 1);
                if old(self).valid_ {
                    old(self).lemma_position_at(block@, i0);
                }
            }
        }
        self.valid_
    }

    /// Moves to the first entry whose key is at or above `key`; behind the
    /// last entry where there is none.
    pub fn seek(&mut self, block: &[u8], key: &[u8])
        ensures
            final(self).restarts_offset == old(self).restarts_offset,
            old(self).inv(block@) ==> final(self).inv(block@) && final(self).position(block@)
                == position_after_seek(block_kv(block@), key@),
    {
        let limit = self.limit(block);
        proof {
            reveal(BlockIterState::inv);
        }
        let ghost good = self.inv(block@);
        let ghost es = block_entries(block@).unwrap();
        let ghost kv = kv_of(es);
        proof {
            if good {
                lemma_wf_chain(block@);
            }
        }
        let n = restart_count(block, limit);
        if n == 0 {
            self.reset();
            return ;
        }
        let mut left: usize = 0;
        let mut right: usize = n - 1;
        while left < right
            invariant
                0 <= left <= right < n,
                limit + 4 * n + 4 == block@.len(),
                self.restarts_offset == old(self).restarts_offset,
                good ==> block_facts(block@, limit as int, n as int, es),
                good && left > 0 ==> lex_lt(
                    es[entry_at_offset(es, restart_point(block@, limit as int, left as int))].key,
                    key@,
                ),
            decreases right - left,
        {
            let mid = left + (right - left + 1) / 2;
            let off = restart_at(block, limit, mid);
            self.jump(off);
            proof {
                if good {
                    assert(is_restart_entry(es, restart_point(block@, limit as int, mid as int)));
                    lemma_restart_entry(block@, limit as int, es, off as int, self.key@);
                }
            }
            let ok = self.step(block, limit);
            if ok && bytes_lt(self.key.as_slice(), key) {
                left = mid;
            } else {
                right = mid - 1;
            }
        }
        let start = restart_at(block, limit, left);
        self.jump(start);
        let ghost mut j: int = 0;
        proof {
            if good {
                if es.len() > 0 {
                    assert(is_restart_entry(es, restart_point(block@, limit as int, left as int)));
                    lemma_restart_entry(block@, limit as int, es, start as int, self.key@);
                    j = entry_at_offset(es, start as int);
                    if left == 0 {
                        lemma_chain_entry(block@, limit as int, es, 0);
                        lemma_chain_start_unique(block@, limit as int, es, j, 0);
                    }
                    assert forall|k: int| 0 <= k < j implies lex_lt((#[trigger] kv[k]).0, key@) by {
                        lemma_keys_ascend_all(kv, k, j);
                        assert(kv[j].0 == es[j].key);
                        lemma_lex_transitive(kv[k].0, kv[j].0, key@);
                    }
                } else {
                    assert(restart_point(block@, limit as int, 0) == 0);
                }
            }
        }
        let ghost j0 = j;
        loop
            invariant_except_break
                good ==> 0 <= j0 <= j <= es.len() && (es.len() > 0 ==> j0 < es.len()),
                good ==> forall|k: int| 0 <= k < j ==> lex_lt((#[trigger] kv[k]).0, key@),
                good && j < es.len() ==> self.offset == es[j].start && parse_entry(
                    block@,
                    self.offset as int,
                    limit as int,
                    self.key@,
                ) == Some(es[j]),
                good && j == es.len() ==> self.offset == limit,
                good && j > j0 ==> self.current == es[j - 1].start,
                good && j == j0 ==> self.current == self.offset && !self.valid_
                    && self.key@.len() == 0,
            invariant
                limit <= block@.len(),
                self.restarts_offset == old(self).restarts_offset,
                good ==> block_facts(block@, limit as int, n as int, es) && kv == kv_of(es)
                    && self.restarts_offset == limit,
            ensures
                good ==> self.inv(block@) && self.position(block@) == position_after_seek(
                    kv,
                    key@,
                ),
            decreases limit - self.offset,
        {
            proof {
                reveal(BlockIterState::inv);
                lemma_parse_entry_bounds(block@, self.offset as int, limit as int, self.key@);
            }
            if self.offset >= limit {
                self.valid_ = false;
                proof {
                    if good {
                        if j < es.len() {
                            lemma_chain_entry(block@, limit as int, es, j);
                        }
                        lemma_first_at_least(kv, key@, es.len() as int);
                        if es.len() > 0 {
                            lemma_chain_entry(block@, limit as int, es, es.len() - 1);
                            assert(self.after_last(es));
                        } else {
                            assert(self.before_first());
                        }
                    }
                }
                break ;
            }
            let ok = self.step(block, limit);
            if !ok {
                break ;
            }
            if !bytes_lt(self.key.as_slice(), key) {
                proof {
                    if good {
                        lemma_lex_le_iff_not_gt(key@, self.key@);
                        assert(kv[j].0 == es[j].key);
                        lemma_first_at_least(kv, key@, j);
                        assert(self.at(es, j));
                        self.lemma_position_at(block@, j);
                    }
                }
                break ;
            }
            proof {
                if good {
                    lemma_chain_entry(block@, limit as int, es, j);
                    assert(kv[j].0 == es[j].key);
                    if j + 1 < es.len() {
                        assert(parse_entry(block@, es[j].next, limit as int, es[j].key) == Some(
                            es[j + 1],
                        ));
                    }
                    j = j + 1;
                }
            }
        }
    }

    /// Moves to the last entry; before the first where the block is empty.
    pub fn seek_to_last(&mut self, block: &[u8])
        ensures
            final(self).restarts_offset == old(self).restarts_offset,
            old(self).inv(block@) ==> final(self).inv(block@) && final(self).position(block@) == (
            if block_kv(block@).len() > 0 {
                Position::At(block_kv(block@).len() - 1)
            } else {
                Position::BeforeFirst
            }),
    {
        let limit = self.limit(block);
        proof {
            reveal(BlockIterState::inv);
        }
        let ghost good = self.inv(block@);
        let ghost es = block_entries(block@).unwrap();
        proof {
            if good {
                lemma_wf_chain(block@);
            }
        }
        let n = restart_count(block, limit);
        if n == 0 {
            self.reset();
            return ;
        }
        let start = restart_at(block, limit, n - 1);
        self.jump(start);
        let ghost mut j: int = 0;
        proof {
            if good {
                if es.len() > 0 {
                    assert(is_restart_entry(es, start as int));
                    lemma_restart_entry(block@, limit as int, es, start as int, self.key@);
                    j = entry_at_offset(es, start as int);
                    lemma_chain_entry(block@, limit as int, es, j);
                } else {
                    assert(restart_point(block@, limit as int, 0) == 0);
                }
            }
        }
        while self.offset < limit
            invariant_except_break
                good && es.len() > 0 ==> 0 <= j <= es.len(),
                good && es.len() > 0 && j < es.len() ==> self.offset == es[j].start
                    && self.offset < limit && parse_entry(
                    block@,
                    self.offset as int,
                    limit as int,
                    self.key@,
                ) == Some(es[j]),
                good && es.len() > 0 && j == es.len() ==> self.at(es, j - 1) && self.offset
                    == limit,
                good && es.len() == 0 ==> self.before_first(),
            invariant
                limit <= block@.len(),
                self.restarts_offset == old(self).restarts_offset,
                good ==> block_facts(block@, limit as int, n as int, es) && self.restarts_offset
                    == limit,
            ensures
                good && es.len() > 0 ==> self.at(es, es.len() - 1),
                good && es.len() == 0 ==> self.before_first(),
            decreases limit - self.offset,
        {
            proof {
                reveal(BlockIterState::inv);
                lemma_parse_entry_bounds(block@, self.offset as int, limit as int, self.key@);
            }
            let ok = self.step(block, limit);
            if !ok {
                break ;
            }
            proof {
                if good {
                    lemma_chain_entry(block@, limit as int, es, j);
                    if j + 1 < es.len() {
                        assert(parse_entry(block@, es[j].next, limit as int, es[j].key) == Some(
                            es[j + 1],
                        ));
                        lemma_chain_entry(block@, limit as int, es, j + 1);
                    }
                    j = j + 1;
                }
            }
        }
        if !self.valid_ {
            self.reset();
        }
        proof {
            if good && es.len() > 0 {
                lemma_chain_entry(block@, limit as int, es, es.len() - 1);
                self.lemma_position_at(block@, es.len() - 1);
            }
        }
    }

    /// Moves to the first entry.
    pub fn seek_to_first(&mut self, block: &[u8]) -> (ok: bool)
        ensures
            ok == final(self).valid_,
            final(self).restarts_offset == old(self).restarts_offset,
            old(self).inv(block@) ==> final(self).inv(block@) && final(self).position(block@) == (
            if block_kv(block@).len() > 0 {
                Position::At(0)
            } else {
                Position::BeforeFirst
            }),
    {
        proof {
            reveal(BlockIterState::inv);
        }
        let ghost good = self.inv(block@);
        self.reset();
        self.advance(block)
    }

    /// The key of the current entry.
    pub fn current_k(&self) -> (k: Option<Vec<u8>>)
        ensures
            match k {
                Some(v) => self.valid_ && v@ == self.key@,
                None => !self.valid_,
            },
    {
        if self.valid_ {
            Some(copy_range(self.key.as_slice(), 0, self.key.len()))
        } else {
            None
        }
    }

    /// The value of the current entry, as the cursor's offsets give it.
    pub open spec fn value_spec(&self, data: Seq<u8>) -> Option<Seq<u8>> {
        if self.valid_ && self.val_offset + self.val_len <= data.len() {
            Some(data.subrange(self.val_offset as int, self.val_offset + self.val_len))
        } else {
            None
        }
    }

    /// The key and value that the cursor is on, in a block that it fits.
    pub open spec fn current_spec(&self, data: Seq<u8>) -> Option<(Seq<u8>, Seq<u8>)> {
        match self.position(data) {
            Position::At(i) => Some(block_kv(data)[i]),
            _ => None,
        }
    }

    /// The value of the current entry.
    pub fn current_v(&self, block: &[u8]) -> (v: Option<Vec<u8>>)
        ensures
            match v {
                Some(x) => self.value_spec(block@) == Some(x@),
                None => self.value_spec(block@) is None,
            },
            self.inv(block@) ==> match self.current_spec(block@) {
                Some(kv) => v is Some && v.unwrap()@ == kv.1,
                None => v is None,
            },
    {
        proof {
            reveal(BlockIterState::inv);
            if self.inv(block@) {
                lemma_wf_chain(block@);
                self.lemma_cases(block@);
                if self.valid_ {
                    let i = self.index_of(block@);
                    let es = block_entries(block@).unwrap();
                    lemma_chain_entry(block@, self.restarts_offset as int, es, i);
                    lemma_parse_entry_bounds(
                        block@,
                        es[i].start,
                        self.restarts_offset as int,
                        if i == 0 {
                            Seq::empty()
                        } else {
                            es[i - 1].key
                        },
                    );
                }
            }
        }
        if self.valid_ && self.val_len <= block.len() && self.val_offset <= block.len()
            - self.val_len {
            Some(copy_range(block, self.val_offset, self.val_offset + self.val_len))
        } else {
            None
        }
    }

    /// The key and value of the current entry.
    pub fn current_kv(&self, block: &[u8]) -> (r: Option<(Vec<u8>, Vec<u8>)>)
        ensures
            match r {
                Some((k, v)) => self.valid_ && k@ == self.key@ && self.value_spec(block@) == Some(
                    v@,
                ),
                None => self.value_spec(block@) is None,
            },
            self.inv(block@) ==> match self.current_spec(block@) {
                Some(kv) => r is Some && r.unwrap().0@ == kv.0 && r.unwrap().1@ == kv.1,
                None => r is None,
            },
    {
        proof {
            if self.inv(block@) {
                self.lemma_cases(block@);
            }
        }
        match self.current_v(block) {
            Some(v) => {
                let k = copy_range(self.key.as_slice(), 0, self.key.len());
                Some((k, v))
            },
            None => None,
        }
    }

    /// The index of the entry that the cursor is on.
    pub open spec fn index_of(&self, data: Seq<u8>) -> int {
        entry_at_offset(block_entries(data).unwrap(), self.current as int)
    }

    /// A cursor on entry `i` has the position `At(i)`.
    pub proof fn lemma_position_at(&self, data: Seq<u8>, i: int)
        requires
            block_wf(data),
            self.restarts_offset == restarts_offset_of(data),
            self.at(block_entries(data).unwrap(), i),
        ensures
            self.position(data) == Position::At(i),
            self.index_of(data) == i,
            self.inv(data),
            self.current_spec(data) == Some(
                (block_entries(data).unwrap()[i].key, block_entries(data).unwrap()[i].value),
            ),
    {
        reveal(BlockIterState::inv);
        lemma_wf_chain(data);
        let es = block_entries(data).unwrap();
        let c = entry_at_offset(es, self.current as int);
        lemma_chain_start_unique(data, self.restarts_offset as int, es, i, c);
    }

    /// What a cursor that fits the block is: before the first entry, on
    /// the entry of its index, or behind the last.
    pub proof fn lemma_cases(&self, data: Seq<u8>)
        requires
            self.inv(data),
        ensures
            self.valid_ ==> self.at(block_entries(data).unwrap(), self.index_of(data))
                && self.position(data) == Position::At(self.index_of(data)),
            !self.valid_ ==> (self.before_first() && self.position(data) == Position::BeforeFirst)
                || (self.after_last(block_entries(data).unwrap()) && self.position(data)
                == Position::AfterLast),
            block_kv(data) == kv_of(block_entries(data).unwrap()),
            block_kv(data).len() == block_entries(data).unwrap().len(),
            self.valid_ ==> 0 <= self.index_of(data) < block_kv(data).len() && self.current_spec(
                data,
            ) == Some(block_kv(data)[self.index_of(data)]) && block_kv(data)[self.index_of(data)].0
                == self.key@,
            !self.valid_ ==> self.current_spec(data) is None,
    {
        reveal(BlockIterState::inv);
        lemma_wf_chain(data);
        let es = block_entries(data).unwrap();
        if self.valid_ {
            let i = choose|i: int| self.at(es, i);
            self.lemma_position_at(data, i);
        } else if self.after_last(es) {
            lemma_chain_entry(data, self.restarts_offset as int, es, es.len() - 1);
        }
    }
}

/// A cursor over a block.
pub struct BlockIter<'a> {
    /// The bytes of the block.
    pub block: &'a [u8],
    /// Where the cursor stands.
    pub state: BlockIterState,
}

impl<'a> BlockIter<'a> {
    /// A cursor before the first entry of `block`, whose entries end at
    /// `restarts_offset`.
    pub fn new(block: &'a [u8], restarts_offset: usize) -> (it: BlockIter<'a>)
        ensures
            it.block@ == block@,
            it.state.restarts_offset == restarts_offset,
            it.state.before_first(),
            block_wf(block@) && restarts_offset == restarts_offset_of(block@) ==> it.inv(),
    {
        proof {
            reveal(BlockIterState::inv);
        }
        BlockIter { block, state: BlockIterState::new(restarts_offset) }
    }

    /// A cursor over `block` that stands where `state` says.
    pub fn new_with_state(block: &'a [u8], state: BlockIterState) -> (it: BlockIter<'a>)
        ensures
            it.block@ == block@,
            it.state == state,
    {
        BlockIter { block, state }
    }

    /// The cursor fits its block: see `BlockIterState::inv`.
    pub open spec fn inv(&self) -> bool {
        self.state.inv(self.block@)
    }

    /// Where the cursor stands.
    pub open spec fn position(&self) -> Position {
        self.state.position(self.block@)
    }

    /// The keys and values of the block.
    pub open spec fn entries(&self) -> Seq<(Seq<u8>, Seq<u8>)> {
        block_kv(self.block@)
    }

    /// The key and value that the cursor is on.
    pub open spec fn current_spec(&self) -> Option<(Seq<u8>, Seq<u8>)> {
        self.state.current_spec(self.block@)
    }

    /// Whether the cursor is on an entry.
    pub fn valid(&self) -> (v: bool)
        ensures
            v == self.state.valid_,
            self.inv() ==> v == (self.current_spec() is Some),
    {
        proof {
            if self.inv() {
                self.state.lemma_cases(self.block@);
            }
        }
        self.state.valid()
    }

    /// Moves to the next entry; see `BlockIterState::advance`.
    pub fn advance(&mut self) -> (ok: bool)
        ensures
            final(self).block == old(self).block,
            ok == final(self).state.valid_,
            final(self).state.restarts_offset == old(self).state.restarts_offset,
            ok ==> old(self).state.offset < final(self).state.offset <= old(self).block@.len(),
            old(self).inv() ==> final(self).inv() && final(self).position()
                == position_after_advance(old(self).position(), old(self).entries().len() as int),
    {
        self.state.advance(self.block)
    }

    /// Moves to the entry before; see `BlockIterState::prev`.
    pub fn prev(&mut self) -> (ok: bool)
        ensures
            final(self).block == old(self).block,
            ok == final(self).state.valid_,
            final(self).state.restarts_offset == old(self).state.restarts_offset,
            old(self).inv() ==> final(self).inv() && final(self).position() == position_after_prev(
                old(self).position(),
                old(self).entries().len() as int,
            ),
    {
        self.state.prev(self.block)
    }

    /// Moves to the first entry whose key is at or above `key`; behind the
    /// last entry where there is none.
    pub fn seek(&mut self, key: &[u8])
        ensures
            final(self).block == old(self).block,
            final(self).state.restarts_offset == old(self).state.restarts_offset,
            old(self).inv() ==> final(self).inv() && final(self).position() == position_after_seek(
                old(self).entries(),
                key@,
            ),
    {
        self.state.seek(self.block, key)
    }

    /// Moves to the last entry.
    pub fn seek_to_last(&mut self)
        ensures
            final(self).block == old(self).block,
            final(self).state.restarts_offset == old(self).state.restarts_offset,
            old(self).inv() ==> final(self).inv() && final(self).position() == (if old(self).entries().len() > 0 {
                Position::At(old(self).entries().len() - 1)
            } else {
                Position::BeforeFirst
            }),
    {
        self.state.seek_to_last(self.block)
    }

    /// Moves to the first entry.
    pub fn seek_to_first(&mut self) -> (ok: bool)
        ensures
            final(self).block == old(self).block,
            ok == final(self).state.valid_,
            final(self).state.restarts_offset == old(self).state.restarts_offset,
            old(self).inv() ==> final(self).inv() && final(self).position() == (if old(self).entries().len() > 0 {
                Position::At(0)
            } else {
                Position::BeforeFirst
            }),
    {
        self.state.seek_to_first(self.block)
    }

    /// Puts the cursor before the first entry.
    pub fn reset(&mut self)
        ensures
            final(self).block == old(self).block,
            final(self).state.restarts_offset == old(self).state.restarts_offset,
            final(self).state.before_first(),
            old(self).inv() ==> final(self).inv() && final(self).position()
                == Position::BeforeFirst,
    {
        proof {
            reveal(BlockIterState::inv);
        }
        self.state.reset()
    }

    /// The key of the current entry.
    pub fn current_k(&self) -> (k: Option<Vec<u8>>)
        ensures
            match k {
                Some(v) => self.state.valid_ && v@ == self.state.key@,
                None => !self.state.valid_,
            },
            self.inv() ==> match self.current_spec() {
                Some(kv) => k is Some && k.unwrap()@ == kv.0,
                None => k is None,
            },
    {
        proof {
            if self.inv() {
                self.state.lemma_cases(self.block@);
            }
        }
        self.state.current_k()
    }

    /// The value of the current entry.
    pub fn current_v(&self) -> (v: Option<Vec<u8>>)
        ensures
            match v {
                Some(x) => self.state.value_spec(self.block@) == Some(x@),
                None => self.state.value_spec(self.block@) is None,
            },
            self.inv() ==> match self.current_spec() {
                Some(kv) => v is Some && v.unwrap()@ == kv.1,
                None => v is None,
            },
    {
        self.state.current_v(self.block)
    }

    /// The key and value of the current entry.
    pub fn current_kv(&self) -> (r: Option<(Vec<u8>, Vec<u8>)>)
        ensures
            match r {
                Some((k, v)) => self.state.valid_ && k@ == self.state.key@
                    && self.state.value_spec(self.block@) == Some(v@),
                None => self.state.value_spec(self.block@) is None,
            },
            self.inv() ==> match self.current_spec() {
                Some(kv) => r is Some && r.unwrap().0@ == kv.0 && r.unwrap().1@ == kv.1,
                None => r is None,
            },
    {
        self.state.current_kv(self.block)
    }

    /// The key of the current entry; empty where the cursor is on none.
    pub fn key(&self) -> (k: Vec<u8>)
        ensures
            k@ == (if self.state.valid_ {
                self.state.key@
            } else {
                Seq::<u8>::empty()
            }),
    {
        match self.state.current_k() {
            Some(k) => k,
            None => Vec::new(),
        }
    }

    /// Moves forward to the end and returns the number of entries passed.
    pub fn count(&mut self) -> (n: usize)
        ensures
            final(self).block == old(self).block,
            !final(self).state.valid_,
            old(self).inv() ==> final(self).inv() && n == entries_after(
                old(self).position(),
                old(self).entries().len() as int,
            ),
    {
        let mut n: usize = 0;
        let ghost total = self.entries().len() as int;
        let ghost good = self.inv();
        loop
            invariant_except_break
                n <= self.state.offset,
                good ==> self.inv() && n + entries_after(self.position(), total) == entries_after(
                    old(self).position(),
                    total,
                ),
            invariant
                self.block == old(self).block,
                total == self.entries().len(),
            ensures
                !self.state.valid_,
                good ==> self.inv() && n == entries_after(old(self).position(), total),
            decreases self.block@.len() - self.state.offset,
        {
            proof {
                reveal(BlockIterState::inv);
                if good {
                    self.state.lemma_cases(self.block@);
                }
            }
            let ok = self.state.advance(self.block);
            if !ok {
                break ;
            }
            proof {
                if good {
                    self.state.lemma_cases(self.block@);
                }
            }
            n += 1;
        }
        n
    }
}

/// The number of entries behind a position, over `n` entries.
pub open spec fn entries_after(p: Position, n: int) -> int {
    match p {
        Position::BeforeFirst => n,
        Position::At(i) => n - i - 1,
        Position::AfterLast => 0,
    }
}

/// What the proofs about a well-formed block carry through their loops:
/// `limit`, `n` and `es` are where its entries end, the number of its
/// restart points and its entries.
pub open spec fn block_facts(data: Seq<u8>, limit: int, n: int, es: Seq<Entry>) -> bool {
    &&& block_wf(data)
    &&& limit == restarts_offset_of(data)
    &&& n == restart_count_of(data)
    &&& es == block_entries(data).unwrap()
    &&& is_chain(data, 0, limit, Seq::empty(), es)
    &&& 0 <= limit <= data.len()
    &&& n >= 1
    &&& limit + 4 * n + 4 == data.len()
    &&& keys_ascend(kv_of(es))
    &&& restarts_fit(data, limit, n, es)
}

/// The entries of a well-formed block are a chain that ends where the
/// restart offsets begin.
pub proof fn lemma_wf_chain(data: Seq<u8>)
    requires
        block_wf(data),
    ensures
        is_chain(
            data,
            0,
            restarts_offset_of(data),
            Seq::empty(),
            block_entries(data).unwrap(),
        ),
        0 <= restarts_offset_of(data) <= data.len(),
        restart_count_of(data) >= 1,
        restarts_offset_of(data) + 4 * restart_count_of(data) + 4 == data.len(),
        keys_ascend(kv_of(block_entries(data).unwrap())),
        restarts_fit(
            data,
            restarts_offset_of(data),
            restart_count_of(data),
            block_entries(data).unwrap(),
        ),
        block_entries(data) is Some,
        block_kv(data) == kv_of(block_entries(data).unwrap()),
        block_kv(data).len() == block_entries(data).unwrap().len(),
{
    reveal(block_wf);
    lemma_chain_of_parse(data, 0, restarts_offset_of(data), Seq::empty());
}

} // verus!
