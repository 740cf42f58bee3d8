//! Building a block: entries with prefix-compressed keys, then the restart
//! offsets and their count.

use crate::coding::{lemma_varint_encoding_len_u32, put_fixed32, put_varint, varint_encoding};
use crate::sstable::block_format::{
    block_entries, block_kv, block_wf, entry_encoding, is_chain, is_restart_entry, keys_ascend,
    kv_of, last_key_of, lemma_chain_push, lemma_keys_ascend_push, lemma_parse_entry_bounds, lemma_parse_entry_encoding,
    lemma_parse_entry_same_prefix, lemma_parse_of_chain, parse_entry, restart_count_of,
    restart_point, restarts_fit, restarts_offset_of, trailer_count, Entry,
};
use crate::sstable::options::Options;
use crate::util::{agree_upto, extend_from, extend_from_range, lex_lt, shared_prefix_len};
use vstd::bytes::*;
use vstd::prelude::*;

verus! {

/// The bytes of a frame that hold the compression type.
pub const BLOCK_CTYPE_LEN: usize = 1;

/// The bytes of a frame that hold the checksum.
pub const BLOCK_CKSUM_LEN: usize = 4;

/// The most bytes that one entry adds to the size estimate beyond its key
/// and value: three varints of lengths below 2^32 and one restart offset.
pub const ENTRY_OVERHEAD: usize = 19;

/// A block under construction.
pub struct BlockBuilder {
    opt: Options,
    buffer: Vec<u8>,
    restarts: Vec<u32>,
    counter: usize,
    last_key: Vec<u8>,
    entries: Ghost<Seq<Entry>>,
}

impl View for BlockBuilder {
    type V = Seq<(Seq<u8>, Seq<u8>)>;

    /// The keys and values added so far, in order.
    closed spec fn view(&self) -> Seq<(Seq<u8>, Seq<u8>)> {
        kv_of(self.entries@)
    }
}

impl BlockBuilder {
    /// The builder's invariant: the buffer holds the entries added so far
    /// and nothing else, their keys ascend, and the restart offsets point
    /// at entries whose keys are stored in full.
    pub closed spec fn wf(&self) -> bool {
        &&& is_chain(self.buffer@, 0, self.buffer@.len() as int, Seq::empty(), self.entries@)
        &&& keys_ascend(kv_of(self.entries@))
        &&& self.last_key@ == last_key_of(self.entries@)
        &&& restarts_ok(self.restarts@, self.entries@, self.buffer@.len() as int)
        &&& self.counter <= self.entries@.len()
        &&& self.buffer@.len() + 4 * self.restarts@.len() + 4 <= u32::MAX
    }

    /// The size of the block if it were finished now.
    pub closed spec fn size_spec(&self) -> nat {
        (self.buffer@.len() + 4 * self.restarts@.len() + 4) as nat
    }

    /// The options that the builder was made with.
    pub closed spec fn options(&self) -> Options {
        self.opt
    }

    /// The key added last; empty before the first.
    pub closed spec fn last_key_spec(&self) -> Seq<u8> {
        self.last_key@
    }

    /// A builder of an empty block.
    pub fn new(opt: Options) -> (b: BlockBuilder)
        ensures
            b.wf(),
            b@ == Seq::<(Seq<u8>, Seq<u8>)>::empty(),
            b.size_spec() == 8,
            b.options() == opt,
            b.last_key_spec() == Seq::<u8>::empty(),
    {
        let mut restarts: Vec<u32> = Vec::new();
        restarts.push(0);
        let b = BlockBuilder {
            opt,
            buffer: Vec::new(),
            restarts,
            counter: 0,
            last_key: Vec::new(),
            entries: Ghost(Seq::empty()),
        };
        assert(b@ =~= Seq::<(Seq<u8>, Seq<u8>)>::empty());
        b
    }

    /// What the invariant says of the entries added: their keys ascend,
    /// the key added last is that of the last entry, and an empty block
    /// takes eight bytes.
    pub proof fn lemma_view(&self)
        requires
            self.wf(),
        ensures
            keys_ascend(self@),
            self@.len() > 0 ==> self.last_key_spec() == self@[self@.len() - 1].0,
            self@.len() == 0 ==> self.last_key_spec() == Seq::<u8>::empty() && self.size_spec()
                == 8,
            8 <= self.size_spec() <= u32::MAX,
    {
        if self.entries@.len() == 0 {
            if self.restarts@.len() > 1 {
                assert(self.restarts@[1] < self.buffer@.len());
            }
        }
    }

    /// Whether nothing was added yet.
    pub fn is_empty(&self) -> (r: bool)
        requires
            self.wf(),
        ensures
            r == (self@.len() == 0),
    {
        proof {
            if self.entries@.len() > 0 {
                crate::sstable::block_format::lemma_chain_starts(
                    self.buffer@,
                    0,
                    self.buffer@.len() as int,
                    Seq::empty(),
                    self.entries@,
                );
                assert(self.entries@[0].start + 3 <= self.entries@[0].next);
            }
        }
        self.buffer.len() == 0
    }

    /// The key added last; empty before the first.
    pub fn last_key(&self) -> (k: &Vec<u8>)
        requires
            self.wf(),
        ensures
            k@ == self.last_key_spec(),
            self@.len() > 0 ==> k@ == self@[self@.len() - 1].0,
            self@.len() == 0 ==> k@ == Seq::<u8>::empty(),
    {
        &self.last_key
    }

    /// The size of the block if it were finished now: the entries, the
    /// restart offsets and their count.
    pub fn size_estimate(&self) -> (n: usize)
        requires
            self.wf(),
        ensures
            n == self.size_spec(),
            n <= u32::MAX,
    {
        self.buffer.len() + 4 * self.restarts.len() + 4
    }

    /// Adds an entry. Its key must be above the key added last. Every
    /// `block_restart_interval` entries the key is stored in full and its
    /// offset recorded as a restart point; otherwise only what differs from
    /// the key before is stored.
    pub fn add(&mut self, key: &[u8], value: &[u8])
        requires
            old(self).wf(),
            old(self)@.len() > 0 ==> lex_lt(old(self)@[old(self)@.len() - 1].0, key@),
            old(self).size_spec() + key@.len() + value@.len() + ENTRY_OVERHEAD <= u32::MAX,
        ensures
            final(self).wf(),
            final(self)@ == old(self)@.push((key@, value@)),
            final(self).options() == old(self).options(),
            final(self).last_key_spec() == key@,
            old(self).size_spec() + 3 <= final(self).size_spec() <= old(self).size_spec()
                + key@.len() + value@.len() + ENTRY_OVERHEAD,
    {
        let interval = if self.opt.block_restart_interval == 0 {
            1
        } else {
            self.opt.block_restart_interval
        };
        let ghost old_buf = self.buffer@;
        let ghost old_es = self.entries@;
        let ghost prev = self.last_key@;
        let ghost old_restarts = self.restarts@;
        let start = self.buffer.len();
        let mut shared: usize = 0;
        if self.counter < interval {
            shared = shared_prefix_len(self.last_key.as_slice(), key);
        } else {
            self.restarts.push(start as u32);
            self.counter = 0;
        }
        let non_shared = key.len() - shared;
        put_varint(&mut self.buffer, shared as u64);
        put_varint(&mut self.buffer, non_shared as u64);
        put_varint(&mut self.buffer, value.len() as u64);
        extend_from_range(&mut self.buffer, key, shared, key.len());
        extend_from(&mut self.buffer, value);
        self.last_key.truncate(shared);
        extend_from_range(&mut self.last_key, key, shared, key.len());
        self.counter = self.counter + 1;
        let ghost suffix = key@.subrange(shared as int, key@.len() as int);
        let ghost e = Entry {
            start: start as int,
            next: self.buffer@.len() as int,
            shared: shared as int,
            key: key@,
            value: value@,
        };
        self.entries = Ghost(old_es.push(e));
        proof {
            lemma_varint_encoding_len_u32(shared as u32);
            lemma_varint_encoding_len_u32(non_shared as u32);
            lemma_varint_encoding_len_u32(value.len() as u32);
            assert(self.buffer@ =~= old_buf + entry_encoding(shared as nat, suffix, value@));
            assert(self.last_key@ =~= key@) by {
                assert(prev.take(shared as int) + suffix =~= key@);
            }
            lemma_added(
                old_buf,
                old_es,
                old_restarts,
                self.buffer@,
                self.restarts@,
                prev,
                shared as nat,
                key@,
                value@,
            );
        }
    }

    /// Ends the block as `finish` does and leaves an empty builder with the
    /// same options behind.
    pub fn take(&mut self) -> (out: Vec<u8>)
        requires
            old(self).wf(),
        ensures
            block_wf(out@),
            block_kv(out@) == old(self)@,
            out@.len() == old(self).size_spec(),
            final(self).wf(),
            final(self)@ == Seq::<(Seq<u8>, Seq<u8>)>::empty(),
            final(self).size_spec() == 8,
            final(self).options() == old(self).options(),
            final(self).last_key_spec() == Seq::<u8>::empty(),
    {
        let mut full = BlockBuilder::new(self.opt);
        core::mem::swap(self, &mut full);
        full.finish()
    }

    /// Ends the block: appends the restart offsets and their count, four
    /// bytes each, and returns the bytes.
    pub fn finish(self) -> (out: Vec<u8>)
        requires
            self.wf(),
        ensures
            block_wf(out@),
            block_kv(out@) == self@,
            out@.len() == self.size_spec(),
    {
        let ghost payload = self.buffer@;
        let ghost es = self.entries@;
        let mut buffer = self.buffer;
        let restarts = self.restarts;
        let limit = buffer.len();
        let n = restarts.len();
        let mut i: usize = 0;
        while i < n
            invariant
                0 <= i <= n,
                n == restarts@.len(),
                limit == payload.len(),
                buffer@.len() == limit + 4 * i,
                buffer@.subrange(0, limit as int) == payload,
                limit + 4 * n + 4 <= u32::MAX,
                forall|r: int|
                    0 <= r < i ==> #[trigger] buffer@.subrange(
                        limit + 4 * r,
                        limit + 4 * r + 4,
                    ) == spec_u32_to_le_bytes(restarts@[r]),
            decreases n - i,
        {
            let ghost before = buffer@;
            put_fixed32(&mut buffer, restarts[i]);
            proof {
                assert(buffer@.subrange(0, limit as int) =~= before.subrange(0, limit as int));
                assert forall|r: int| 0 <= r < i + 1 implies #[trigger] buffer@.subrange(
                    limit + 4 * r,
                    limit + 4 * r + 4,
                ) == spec_u32_to_le_bytes(restarts@[r]) by {
                    if r < i {
                        assert(buffer@.subrange(limit + 4 * r, limit + 4 * r + 4)
                            =~= before.subrange(limit + 4 * r, limit + 4 * r + 4));
                    } else {
                        assert(buffer@.subrange(limit + 4 * r, limit + 4 * r + 4)
                            =~= spec_u32_to_le_bytes(restarts@[r]));
                    }
                }
            }
            i += 1;
        }
        let ghost before = buffer@;
        put_fixed32(&mut buffer, n as u32);
        proof {
            let out = buffer@;
            reveal(block_wf);
            lemma_auto_spec_u32_to_from_le_bytes();
            assert(out.subrange(out.len() - 4, out.len() as int) =~= spec_u32_to_le_bytes(n as u32));
            assert(trailer_count(out) == Some(n as int));
            assert(restarts_offset_of(out) == limit);
            assert(out.subrange(0, limit as int) =~= payload);
            assert forall|r: int| 0 <= r < n implies restart_point(out, limit as int, r)
                == restarts@[r] by {
                assert(out.subrange(limit + 4 * r, limit + 4 * r + 4) =~= before.subrange(
                    limit + 4 * r,
                    limit + 4 * r + 4,
                ));
            }
            assert(payload.subrange(0, limit as int) =~= payload);
            lemma_chain_same_prefix(payload, out, limit as int, es);
            lemma_parse_of_chain(out, 0, limit as int, Seq::empty(), es);
            assert(block_entries(out) == Some(es));
            assert(restarts_fit(out, limit as int, n as int, es)) by {
                assert(restart_point(out, limit as int, 0) == restarts@[0]);
                assert forall|r: int| 0 < r < n implies restart_point(out, limit as int, r - 1)
                    < #[trigger] restart_point(out, limit as int, r) by {
                    assert(restart_point(out, limit as int, r) == restarts@[r]);
                    assert(restart_point(out, limit as int, r - 1) == restarts@[r - 1]);
                }
                assert forall|r: int| 0 <= r < n && (r > 0 || es.len() > 0) implies is_restart_entry(
                    es,
                    #[trigger] restart_point(out, limit as int, r),
                ) by {
                    assert(restart_point(out, limit as int, r) == restarts@[r]);
                }
            }
        }
        buffer
    }
}

/// What the restart offsets of a builder are to its entries.
pub open spec fn restarts_ok(restarts: Seq<u32>, es: Seq<Entry>, len: int) -> bool {
    &&& restarts.len() >= 1
    &&& restarts[0] == 0
    &&& forall|r: int| 0 < r < restarts.len() ==> restarts[r - 1] < #[trigger] restarts[r] < len
    &&& forall|r: int|
        0 <= r < restarts.len() && (r > 0 || es.len() > 0) ==> is_restart_entry(
            es,
            #[trigger] restarts[r] as int,
        )
}

/// The step of `BlockBuilder::add`: the bytes of one more entry behind a
/// chain give a chain with that entry at its end, still ascending, and
/// the restart offsets, with or without the new entry's, still fit.
proof fn lemma_added(
    old_buf: Seq<u8>,
    old_es: Seq<Entry>,
    old_restarts: Seq<u32>,
    buf: Seq<u8>,
    restarts: Seq<u32>,
    prev: Seq<u8>,
    shared: nat,
    key: Seq<u8>,
    value: Seq<u8>,
)
    requires
        is_chain(old_buf, 0, old_buf.len() as int, Seq::empty(), old_es),
        keys_ascend(kv_of(old_es)),
        prev == last_key_of(old_es),
        restarts_ok(old_restarts, old_es, old_buf.len() as int),
        old_es.len() > 0 ==> lex_lt(prev, key),
        shared <= key.len(),
        agree_upto(prev, key, shared as int),
        key.len() <= u32::MAX,
        value.len() <= u32::MAX,
        old_buf.len() <= u32::MAX,
        buf == old_buf + entry_encoding(shared, key.subrange(shared as int, key.len() as int), value),
        restarts == old_restarts || (restarts == old_restarts.push(old_buf.len() as u32) && shared
            == 0 && old_es.len() > 0),
        old_es.len() == 0 ==> shared == 0,
    ensures
        is_chain(
            buf,
            0,
            buf.len() as int,
            Seq::empty(),
            old_es.push(
                Entry {
                    start: old_buf.len() as int,
                    next: buf.len() as int,
                    shared: shared as int,
                    key: key,
                    value: value,
                },
            ),
        ),
        keys_ascend(
            kv_of(
                old_es.push(
                    Entry {
                        start: old_buf.len() as int,
                        next: buf.len() as int,
                        shared: shared as int,
                        key: key,
                        value: value,
                    },
                ),
            ),
        ),
        kv_of(
            old_es.push(
                Entry {
                    start: old_buf.len() as int,
                    next: buf.len() as int,
                    shared: shared as int,
                    key: key,
                    value: value,
                },
            ),
        ) == kv_of(old_es).push((key, value)),
        restarts_ok(
            restarts,
            old_es.push(
                Entry {
                    start: old_buf.len() as int,
                    next: buf.len() as int,
                    shared: shared as int,
                    key: key,
                    value: value,
                },
            ),
            buf.len() as int,
        ),
        old_buf.len() + 3 <= buf.len() <= old_buf.len() + 15 + key.len() + value.len(),
{
    let start = old_buf.len() as int;
    let suffix = key.subrange(shared as int, key.len() as int);
    let e = Entry { start, next: buf.len() as int, shared: shared as int, key, value };
    let es2 = old_es.push(e);
    assert(buf.subrange(start, buf.len() as int) =~= entry_encoding(shared, suffix, value));
    assert(prev.take(shared as int) + suffix =~= key);
    lemma_parse_entry_encoding(buf, start, prev, shared, suffix, value);
    assert(old_buf.subrange(0, start) =~= buf.subrange(0, start));
    lemma_chain_push(old_buf, buf, start, buf.len() as int, old_es, e);
    assert(kv_of(es2) =~= kv_of(old_es).push((key, value)));
    if old_es.len() > 0 {
        assert(kv_of(old_es)[old_es.len() - 1].0 == prev);
    }
    lemma_keys_ascend_push(kv_of(old_es), key, value);
    lemma_parse_entry_bounds(buf, start, buf.len() as int, prev);
    if old_es.len() > 0 {
        crate::sstable::block_format::lemma_chain_starts(
            old_buf,
            0,
            start,
            Seq::empty(),
            old_es,
        );
        assert(old_es[0].start + 3 <= old_es[0].next <= start);
    }
    assert forall|r: int| 0 <= r < restarts.len() && (r > 0 || es2.len() > 0) implies is_restart_entry(
        es2,
        #[trigger] restarts[r] as int,
    ) by {
        if r < old_restarts.len() && (r > 0 || old_es.len() > 0) {
            assert(restarts[r] == old_restarts[r]);
            assert(is_restart_entry(old_es, old_restarts[r] as int));
            let w = choose|i: int|
                0 <= i < old_es.len() && (#[trigger] old_es[i]).start == old_restarts[r]
                    && old_es[i].shared == 0;
            assert(es2[w] == old_es[w]);
        } else {
            assert(es2[old_es.len() as int] == e);
        }
    }
    assert forall|r: int| 0 < r < restarts.len() implies restarts[r - 1] < #[trigger] restarts[r]
        < buf.len() by {
        if r < old_restarts.len() {
            assert(restarts[r] == old_restarts[r]);
            assert(restarts[r - 1] == old_restarts[r - 1]);
        } else {
            assert(restarts[r - 1] == old_restarts[r - 1]);
            if r - 1 > 0 {
                assert(old_restarts[r - 1] < old_buf.len());
            }
        }
    }
    lemma_varint_encoding_len_u32(shared as u32);
    lemma_varint_encoding_len_u32(suffix.len() as u32);
    lemma_varint_encoding_len_u32(value.len() as u32);
}

/// A chain stays a chain when the bytes behind its end change.
pub proof fn lemma_chain_same_prefix(d1: Seq<u8>, d2: Seq<u8>, limit: int, es: Seq<Entry>)
    requires
        is_chain(d1, 0, limit, Seq::empty(), es),
        0 <= limit <= d1.len(),
        limit <= d2.len(),
        d1.subrange(0, limit) == d2.subrange(0, limit),
    ensures
        is_chain(d2, 0, limit, Seq::empty(), es),
{
    if es.len() > 0 {
        lemma_parse_entry_same_prefix(d1, d2, 0, limit, Seq::empty());
    }
    assert forall|i: int, j: int| 0 <= i && j == i + 1 && j < es.len() implies parse_entry(
        d2,
        (#[trigger] es[i]).next,
        limit,
        es[i].key,
    ) == Some(#[trigger] es[j]) by {
        lemma_parse_entry_same_prefix(d1, d2, es[i].next, limit, es[i].key);
    }
}

} // verus!
