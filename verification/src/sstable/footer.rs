//! The footer of a table file: the index block's handle, padded to forty
//! bytes with zeros, and the magic number.

use crate::coding::{get_fixed64, put_fixed64};
use crate::sstable::block_handle::{
    handle_decode, handle_encoding, lemma_handle_roundtrip, BlockHandle,
};
use crate::sstable::result::{MyResult, Status, StatusCode};
use vstd::bytes::*;
use vstd::prelude::*;
use vstd::slice::slice_subrange;

verus! {

/// The length of a footer.
pub const FOOTER_LENGTH: usize = 48;

/// The bytes of a footer before the magic number.
pub const FOOTER_HANDLE_LENGTH: usize = 40;

/// The number that ends every table file.
pub const MAGIC_FOOTER_NUMBER: u64 = 0xDB4775248B80FB57;

/// The end of a table file.
#[derive(Debug, Clone, Copy, PartialEq, Eq, Structural)]
pub struct Footer {
    /// Where the index block lies.
    pub index: BlockHandle,
}

/// `n` zero bytes.
pub open spec fn zeros(n: nat) -> Seq<u8> {
    Seq::new(n, |i: int| 0u8)
}

/// The bytes of the footer that points at `index`.
pub open spec fn footer_encoding(index: BlockHandle) -> Seq<u8> {
    handle_encoding(index) + zeros((40 - handle_encoding(index).len()) as nat)
        + spec_u64_to_le_bytes(MAGIC_FOOTER_NUMBER)
}

/// The index handle of a footer; `None` where the bytes are not
/// forty-eight, do not end in the magic number or do not start with a handle.
pub open spec fn footer_decode(s: Seq<u8>) -> Option<BlockHandle> {
    if s.len() == 48 && spec_u64_from_le_bytes(s.subrange(40, 48)) == MAGIC_FOOTER_NUMBER {
        match handle_decode(s.subrange(0, 40)) {
            Some((h, _)) => Some(h),
            None => None,
        }
    } else {
        None
    }
}

/// A footer's bytes are forty-eight and are read back as that footer.
pub proof fn lemma_footer_roundtrip(index: BlockHandle)
    ensures
        footer_encoding(index).len() == 48,
        footer_decode(footer_encoding(index)) == Some(index),
{
    let h = handle_encoding(index);
    let z = zeros((40 - h.len()) as nat);
    lemma_handle_roundtrip(index, z);
    lemma_auto_spec_u64_to_from_le_bytes();
    let s = footer_encoding(index);
    assert(s.subrange(40, 48) =~= spec_u64_to_le_bytes(MAGIC_FOOTER_NUMBER));
    assert(s.subrange(0, 40) =~= h + z);
}

impl Footer {
    pub fn new(index: BlockHandle) -> (f: Footer)
        ensures
            f.index == index,
    {
        Footer { index }
    }

    /// The footer as forty-eight bytes.
    pub fn encode(&self) -> (out: Vec<u8>)
        ensures
            out@ == footer_encoding(self.index),
            out@.len() == 48,
    {
        proof {
            lemma_handle_roundtrip(self.index, Seq::empty());
            lemma_footer_roundtrip(self.index);
        }
        let mut out: Vec<u8> = Vec::new();
        self.index.encode_to(&mut out);
        assert(out@ =~= handle_encoding(self.index));
        let ghost h = out@;
        while out.len() < FOOTER_HANDLE_LENGTH
            invariant
                h.len() <= out@.len() <= 40,
                out@ == h + zeros((out@.len() - h.len()) as nat),
            decreases 40 - out@.len(),
        {
            out.push(0);
            assert(out@ =~= h + zeros((out@.len() - h.len()) as nat));
        }
        put_fixed64(&mut out, MAGIC_FOOTER_NUMBER);
        out
    }

    /// Reads a footer; `InvalidData` where the bytes are no footer.
    pub fn decode(src: &[u8]) -> (r: MyResult<Footer>)
        ensures
            match r {
                Ok(f) => footer_decode(src@) == Some(f.index),
                Err(s) => footer_decode(src@) is None && s.code == StatusCode::InvalidData,
            },
    {
        if src.len() != FOOTER_LENGTH {
            return Err(Status::new(StatusCode::InvalidData, "footer length"));
        }
        if get_fixed64(src, 40) != MAGIC_FOOTER_NUMBER {
            return Err(Status::new(StatusCode::InvalidData, "magic number"));
        }
        match BlockHandle::decode(slice_subrange(src, 0, 40)) {
            Some((h, _)) => Ok(Footer { index: h }),
            None => Err(Status::new(StatusCode::InvalidData, "index handle")),
        }
    }
}

} // verus!
