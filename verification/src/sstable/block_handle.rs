//! Where a block lies in a table file.

use crate::coding::{get_varint, put_varint, varint_decode, varint_encoding};
use crate::coding::{lemma_varint_encoding_len_u64, lemma_varint_roundtrip};
use vstd::prelude::*;

verus! {

/// The place of a block's frame in a file: where it starts and how many
/// bytes it takes, the compression type and checksum included.
#[derive(Debug, Clone, Copy, PartialEq, Eq, Structural)]
pub struct BlockHandle {
    pub offset: usize,
    pub size: usize,
}

/// A handle on the wire: its offset and its size, a varint each.
pub open spec fn handle_encoding(h: BlockHandle) -> Seq<u8> {
    varint_encoding(h.offset as nat) + varint_encoding(h.size as nat)
}

/// The handle at the front of `s` and the number of bytes it takes, if two
/// varints that fit a `usize` stand there.
pub open spec fn handle_decode(s: Seq<u8>) -> Option<(BlockHandle, nat)> {
    match varint_decode(s) {
        None => None,
        Some((off, n1)) => match varint_decode(s.subrange(n1 as int, s.len() as int)) {
            None => None,
            Some((size, n2)) => if off <= usize::MAX && size <= usize::MAX {
                Some((BlockHandle { offset: off as usize, size: size as usize }, n1 + n2))
            } else {
                None
            },
        },
    }
}

/// A handle's bytes are read back as that handle, whatever follows them;
/// they are at most twenty.
pub proof fn lemma_handle_roundtrip(h: BlockHandle, rest: Seq<u8>)
    ensures
        handle_decode(handle_encoding(h) + rest) == Some((h, handle_encoding(h).len())),
        2 <= handle_encoding(h).len() <= 20,
{
    let e1 = varint_encoding(h.offset as nat);
    let e2 = varint_encoding(h.size as nat);
    let s = handle_encoding(h) + rest;
    lemma_varint_encoding_len_u64(h.offset as u64);
    lemma_varint_encoding_len_u64(h.size as u64);
    assert(s =~= e1 + (e2 + rest));
    lemma_varint_roundtrip(h.offset as u64, e2 + rest);
    assert(s.subrange(e1.len() as int, s.len() as int) =~= e2 + rest);
    lemma_varint_roundtrip(h.size as u64, rest);
}

impl BlockHandle {
    pub fn new(offset: usize, size: usize) -> (h: BlockHandle)
        ensures
            h.offset == offset,
            h.size == size,
    {
        BlockHandle { offset, size }
    }

    pub fn offset(&self) -> (o: usize)
        ensures
            o == self.offset,
    {
        self.offset
    }

    pub fn size(&self) -> (n: usize)
        ensures
            n == self.size,
    {
        self.size
    }

    /// Appends the handle to `dst`.
    pub fn encode_to(&self, dst: &mut Vec<u8>)
        ensures
            final(dst)@ == old(dst)@ + handle_encoding(*self),
    {
        put_varint(dst, self.offset as u64);
        put_varint(dst, self.size as u64);
        assert(dst@ =~= old(dst)@ + handle_encoding(*self));
    }

    /// The handle as bytes.
    pub fn encode(&self) -> (out: Vec<u8>)
        ensures
            out@ == handle_encoding(*self),
    {
        let mut out: Vec<u8> = Vec::new();
        self.encode_to(&mut out);
        assert(out@ =~= handle_encoding(*self));
        out
    }

    /// Reads a handle from the front of `src`. Returns it with the number
    /// of bytes read; `None` where `src` does not start with two varints
    /// that fit a `usize`.
    pub fn decode(src: &[u8]) -> (r: Option<(BlockHandle, usize)>)
        ensures
            match handle_decode(src@) {
                Some((h, n)) => r == Some((h, n as usize)) && n <= src@.len(),
                None => r is None,
            },
    {
        let len = src.len();
        assert(src@.subrange(0, len as int) =~= src@);
        let (off, e1) = match get_varint(src, 0, len) {
            Some(x) => x,
            None => {
                return None;
            },
        };
        let (size, e2) = match get_varint(src, e1, len) {
            Some(x) => x,
            None => {
                return None;
            },
        };
        if off > usize::MAX as u64 || size > usize::MAX as u64 {
            return None;
        }
        Some((BlockHandle { offset: off as usize, size: size as usize }, e2))
    }
}

} // verus!
