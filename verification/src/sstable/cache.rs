//! The block cache: decoded blocks by file and offset. It holds a fixed
//! number of blocks; where one more comes, the block that was used least
//! recently goes.

use crate::sstable::block::{block_at, Block};
use crate::sstable::block_handle::BlockHandle;
use crate::sstable::result::{MyResult, StatusCode};
use crate::sstable::table_reader::TableReader;
use crate::util::copy_range;
use vstd::prelude::*;

verus! {

/// What a cached block is found by: the number of its file and where its
/// frame starts in the file.
#[derive(Debug, Clone, Copy, PartialEq, Eq, Structural)]
pub struct CacheKey {
    pub file_id: u64,
    pub offset: usize,
}

/// The cache.
pub struct BlockCache {
    capacity_: usize,
    entries: Vec<(CacheKey, Block)>,
}

/// A cached block as the contracts speak of it: its key and its bytes.
pub type Cached = (CacheKey, Seq<u8>);

/// Where a key stands in a cache; the length where it is not there.
pub open spec fn position_of(c: Seq<Cached>, key: CacheKey) -> int
    decreases c.len(),
{
    if c.len() == 0 {
        0
    } else if c[0].0 == key {
        0
    } else {
        1 + position_of(c.skip(1), key)
    }
}

/// The bytes cached under a key.
pub open spec fn cached(c: Seq<Cached>, key: CacheKey) -> Option<Seq<u8>> {
    if position_of(c, key) < c.len() {
        Some(c[position_of(c, key)].1)
    } else {
        None
    }
}

/// The cache after a block was used: the block goes to the end.
pub open spec fn touched(c: Seq<Cached>, key: CacheKey) -> Seq<Cached> {
    let i = position_of(c, key);
    if i < c.len() {
        c.remove(i).push(c[i])
    } else {
        c
    }
}

/// The cache after a block was put in: it goes to the end; the block that
/// was there under its key goes, or else, where the cache is full, the
/// block at the front. A cache without room stays empty.
pub open spec fn inserted(c: Seq<Cached>, capacity: int, key: CacheKey, bytes: Seq<u8>) -> Seq<
    Cached,
> {
    let i = position_of(c, key);
    if capacity <= 0 {
        c
    } else if i < c.len() {
        c.remove(i).push((key, bytes))
    } else if c.len() >= capacity {
        c.skip(1).push((key, bytes))
    } else {
        c.push((key, bytes))
    }
}

/// The place of a key is inside the cache or at its end; no block before
/// it has the key, and the block at it has.
pub proof fn lemma_position_of(c: Seq<Cached>, key: CacheKey)
    ensures
        0 <= position_of(c, key) <= c.len(),
        forall|k: int| 0 <= k < position_of(c, key) ==> (#[trigger] c[k]).0 != key,
        position_of(c, key) < c.len() ==> c[position_of(c, key)].0 == key,
    decreases c.len(),
{
    if c.len() > 0 && c[0].0 != key {
        lemma_position_of(c.skip(1), key);
        assert forall|k: int| 0 <= k < position_of(c, key) implies (#[trigger] c[k]).0 != key by {
            if k > 0 {
                assert(c.skip(1)[k - 1] == c[k]);
            }
        }
    }
}

/// The place of a key, told by what it is.
pub proof fn lemma_position_is(c: Seq<Cached>, key: CacheKey, i: int)
    requires
        0 <= i <= c.len(),
        forall|k: int| 0 <= k < i ==> (#[trigger] c[k]).0 != key,
        i < c.len() ==> c[i].0 == key,
    ensures
        position_of(c, key) == i,
    decreases c.len(),
{
    if c.len() > 0 && i > 0 {
        assert(c[0].0 != key);
        assert forall|k: int| 0 <= k < i - 1 implies (#[trigger] c.skip(1)[k]).0 != key by {
            assert(c.skip(1)[k] == c[k + 1]);
        }
        if i - 1 < c.skip(1).len() {
            assert(c.skip(1)[i - 1] == c[i]);
        }
        lemma_position_is(c.skip(1), key, i - 1);
    }
}

impl View for BlockCache {
    type V = Seq<Cached>;

    /// The cached blocks, the one used least recently first.
    closed spec fn view(&self) -> Seq<Cached> {
        Seq::new(self.entries@.len(), |i: int| (self.entries@[i].0, self.entries@[i].1.block@))
    }
}

impl BlockCache {
    /// The number of blocks that the cache holds at most.
    pub closed spec fn capacity(&self) -> usize {
        self.capacity_
    }

    /// The cache's invariant: it holds no more blocks than it may.
    pub closed spec fn wf(&self) -> bool {
        self.entries@.len() <= self.capacity_
    }

    /// An empty cache for `capacity` blocks.
    pub fn new(capacity: usize) -> (c: BlockCache)
        ensures
            c.wf(),
            c@.len() == 0,
            c.capacity() == capacity,
    {
        BlockCache { capacity_: capacity, entries: Vec::new() }
    }

    /// The number of cached blocks.
    pub fn len(&self) -> (n: usize)
        ensures
            n == self@.len(),
    {
        self.entries.len()
    }

    /// Where a key stands in the cache.
    fn find(&self, key: &CacheKey) -> (i: usize)
        ensures
            i == position_of(self@, *key),
            i <= self@.len(),
    {
        let mut i: usize = 0;
        while i < self.entries.len()
            invariant
                i <= self.entries@.len(),
                forall|k: int| 0 <= k < i ==> (#[trigger] self@[k]).0 != *key,
            decreases self.entries@.len() - i,
        {
            if self.entries[i].0.file_id == key.file_id && self.entries[i].0.offset == key.offset {
                proof {
                    assert(self@[i as int].0 == *key);
                    lemma_position_is(self@, *key, i as int);
                }
                return i;
            }
            assert(self@[i as int].0 != *key);
            i += 1;
        }
        proof {
            lemma_position_is(self@, *key, i as int);
        }
        i
    }

    /// The block cached under a key, which then counts as the one used
    /// last.
    pub fn get(&mut self, key: &CacheKey) -> (r: Option<Block>)
        requires
            old(self).wf(),
        ensures
            final(self).wf(),
            final(self).capacity() == old(self).capacity(),
            final(self)@ == touched(old(self)@, *key),
            match r {
                Some(b) => cached(old(self)@, *key) == Some(b.block@),
                None => cached(old(self)@, *key) is None,
            },
    {
        let i = self.find(key);
        if i >= self.entries.len() {
            return None;
        }
        let ghost before = self@;
        let (k, block) = self.entries.remove(i);
        let copy = Block::new_with_buffer(copy_range(block.block.as_slice(), 0, block.block.len()), block.opt);
        assert(copy.block@ =~= block.block@);
        self.entries.push((k, block));
        proof {
            assert(self@ =~= before.remove(i as int).push(before[i as int]));
        }
        Some(copy)
    }

    /// Puts a block into the cache under a key.
    pub fn insert(&mut self, key: CacheKey, block: Block)
        requires
            old(self).wf(),
        ensures
            final(self).wf(),
            final(self).capacity() == old(self).capacity(),
            final(self)@ == inserted(old(self)@, old(self).capacity() as int, key, block.block@),
    {
        if self.capacity_ == 0 {
            return ;
        }
        let ghost before = self@;
        let i = self.find(&key);
        if i < self.entries.len() {
            let _ = self.entries.remove(i);
            assert(self@ =~= before.remove(i as int));
        } else if self.entries.len() >= self.capacity_ {
            let _ = self.entries.remove(0);
            assert(self@ =~= before.skip(1));
        }
        let ghost mid = self@;
        self.entries.push((key, block));
        assert(self@ =~= mid.push((key, block.block@)));
    }
}

impl TableReader {
    /// Reads the block that `bh` points at, through the cache: a block
    /// that is cached under the file's number and the block's offset is
    /// returned as it is cached; else the block is read and cached.
    pub fn read_block_cached(&self, cache: &mut BlockCache, file_id: u64, bh: &BlockHandle) -> (r:
        MyResult<Block>)
        requires
            old(cache).wf(),
        ensures
            final(cache).wf(),
            final(cache).capacity() == old(cache).capacity(),
            match cached(old(cache)@, CacheKey { file_id, offset: bh.offset }) {
                Some(bytes) => r matches Ok(b) && b.block@ == bytes && final(cache)@ == touched(
                    old(cache)@,
                    CacheKey { file_id, offset: bh.offset },
                ),
                None => match r {
                    Ok(b) => block_at(self.file@, *bh) == Ok::<Seq<u8>, StatusCode>(b.block@)
                        && final(cache)@ == inserted(
                        old(cache)@,
                        old(cache).capacity() as int,
                        CacheKey { file_id, offset: bh.offset },
                        b.block@,
                    ),
                    Err(s) => block_at(self.file@, *bh) == Err::<Seq<u8>, StatusCode>(s.code)
                        && final(cache)@ == old(cache)@,
                },
            },
    {
        let key = CacheKey { file_id, offset: bh.offset };
        match cache.get(&key) {
            Some(b) => {
                return Ok(b);
            },
            None => {},
        }
        let block = match self.read_block(bh) {
            Ok(b) => b,
            Err(s) => {
                return Err(s);
            },
        };
        let copy = Block::new_with_buffer(copy_range(block.block.as_slice(), 0, block.block.len()), block.opt);
        assert(copy.block@ =~= block.block@);
        cache.insert(key, copy);
        Ok(block)
    }
}

} // verus!
