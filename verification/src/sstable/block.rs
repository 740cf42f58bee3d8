//! A block of a table and its frame on disk.
//!
//! A frame is the block's bytes, stored plain or compressed, followed by
//! one byte for the compression type and four bytes for the masked
//! CRC-32C of all that comes before them.

use crate::coding::{get_fixed32, put_fixed32};
use crate::sstable::block_format::{
    block_entries, block_kv, block_wf, kv_of, restart_count_of, restarts_offset_of, trailer_count,
};
use crate::sstable::block_handle::BlockHandle;
use crate::sstable::block_iter::{BlockIter, BlockIterState};
use crate::sstable::checksum::{
    checksum, crc32c, lemma_unmask_mask, mask_crc, masked, unmask_crc, unmasked,
};
use crate::sstable::compression::{
    compress, decompress, snappy_compressed, snappy_decompressed,
};
use crate::sstable::options::{
    compress_type_code, compress_type_of, compress_type_to_int, int_to_compress_type,
    CompressType, Options,
};
use crate::sstable::result::{MyResult, Status, StatusCode};
use crate::util::{copy_range, extend_from};
use vstd::bytes::*;
use vstd::prelude::*;
use vstd::slice::slice_subrange;

verus! {

/// The bytes that end a frame: the compression type and the checksum.
pub const FRAME_TRAILER_LEN: usize = 5;

/// A block: a run of entries and its restart points, as bytes.
#[derive(Debug)]
pub struct Block {
    pub opt: Options,
    pub block: Vec<u8>,
}

/// The frame of a block stored as `body` under compression type `code`.
pub open spec fn frame_of(body: Seq<u8>, code: u8) -> Seq<u8> {
    body + seq![code] + spec_u32_to_le_bytes(masked(crc32c(body + seq![code])))
}

/// What is stored for a block under a compression type: the block itself,
/// or what Snappy makes of it; `None` where Snappy refuses it.
pub open spec fn stored_body(block: Seq<u8>, t: CompressType) -> Option<Seq<u8>> {
    match t {
        CompressType::Uncompressed => Some(block),
        CompressType::Snappy => snappy_compressed(block),
    }
}

/// The block that a frame holds, or why it holds none: `InvalidData` for
/// a frame of less than five bytes or an unknown compression type,
/// `ChecksumError` where the stored checksum is not that of the bytes
/// before it, `SnapError` where Snappy rejects the stored bytes.
pub open spec fn decode_frame(frame: Seq<u8>) -> Result<Seq<u8>, StatusCode> {
    let n = frame.len() as int;
    if n < 5 {
        Err(StatusCode::InvalidData)
    } else if unmasked(spec_u32_from_le_bytes(frame.subrange(n - 4, n))) != crc32c(
        frame.subrange(0, n - 4),
    ) {
        Err(StatusCode::ChecksumError)
    } else {
        match compress_type_of(frame[n - 5] as int) {
            None => Err(StatusCode::InvalidData),
            Some(CompressType::Uncompressed) => Ok(frame.subrange(0, n - 5)),
            Some(CompressType::Snappy) => match snappy_decompressed(frame.subrange(0, n - 5)) {
                Some(d) => Ok(d),
                None => Err(StatusCode::SnapError),
            },
        }
    }
}

/// The bytes of `file` that a handle points at, if they are all there.
pub open spec fn bytes_at(file: Seq<u8>, h: BlockHandle) -> Option<Seq<u8>> {
    if h.offset + h.size <= file.len() {
        Some(file.subrange(h.offset as int, h.offset + h.size))
    } else {
        None
    }
}

/// The block that a handle points at in a file, or why there is none:
/// `IOError` where the file ends before the frame does, else what
/// `decode_frame` says.
pub open spec fn block_at(file: Seq<u8>, h: BlockHandle) -> Result<Seq<u8>, StatusCode> {
    match bytes_at(file, h) {
        None => Err(StatusCode::IOError),
        Some(frame) => decode_frame(frame),
    }
}

/// A frame made by `frame_of` from what is stored for a block holds that
/// block, where Snappy gives back what it was given.
pub proof fn lemma_frame_roundtrip(block: Seq<u8>, t: CompressType)
    requires
        stored_body(block, t) matches Some(body) && (t == CompressType::Snappy
            ==> snappy_decompressed(body) == Some(block)),
    ensures
        decode_frame(frame_of(stored_body(block, t).unwrap(), compress_type_code(t))) == Ok::<
            Seq<u8>,
            StatusCode,
        >(block),
        frame_of(stored_body(block, t).unwrap(), compress_type_code(t)).len() == stored_body(
            block,
            t,
        ).unwrap().len() + 5,
{
    let body = stored_body(block, t).unwrap();
    let code = compress_type_code(t);
    let c = crc32c(body + seq![code]);
    let f = frame_of(body, code);
    let n = f.len() as int;
    lemma_auto_spec_u32_to_from_le_bytes();
    lemma_unmask_mask(c);
    assert(f.subrange(n - 4, n) =~= spec_u32_to_le_bytes(masked(c)));
    assert(f.subrange(0, n - 4) =~= body + seq![code]);
    assert(f.subrange(0, n - 5) =~= body);
    assert(f[n - 5] == code);
}

/// The frame of `block` under the compression type `t`: the block stored
/// plain or compressed, the type, the masked checksum.
pub fn frame_block(block: &[u8], t: CompressType) -> (r: MyResult<Vec<u8>>)
    ensures
        match r {
            Ok(f) => stored_body(block@, t) is Some && f@ == frame_of(
                stored_body(block@, t).unwrap(),
                compress_type_code(t),
            ) && decode_frame(f@) == Ok::<Seq<u8>, StatusCode>(block@),
            Err(s) => s.code == StatusCode::CompressError && t == CompressType::Snappy
                && snappy_compressed(block@) is None,
        },
{
    let mut out: Vec<u8> = match t {
        CompressType::Uncompressed => copy_range(block, 0, block.len()),
        CompressType::Snappy => match compress(block) {
            Ok(v) => v,
            Err(_) => {
                return Err(Status::new(StatusCode::CompressError, "block cannot be compressed"));
            },
        },
    };
    proof {
        assert(block@.subrange(0, block@.len() as int) =~= block@);
        lemma_frame_roundtrip(block@, t);
    }
    let ghost body = out@;
    let code = compress_type_to_int(t);
    out.push(code);
    assert(out@ =~= body + seq![code]);
    let c = checksum(out.as_slice());
    put_fixed32(&mut out, mask_crc(c));
    assert(out@ =~= frame_of(body, code));
    Ok(out)
}

/// The part of `file` that a handle points at; `IOError` where the file
/// ends before it.
pub fn read_bytes<'a>(file: &'a [u8], location: &BlockHandle) -> (r: MyResult<&'a [u8]>)
    ensures
        match r {
            Ok(b) => bytes_at(file@, *location) == Some(b@),
            Err(s) => bytes_at(file@, *location) is None && s.code == StatusCode::IOError,
        },
{
    let len = file.len();
    if location.offset > len || location.size > len - location.offset {
        return Err(Status::new(StatusCode::IOError, "short read"));
    }
    Ok(slice_subrange(file, location.offset, location.offset + location.size))
}

/// The block that a frame holds.
pub fn block_from_frame(frame: &[u8]) -> (r: MyResult<Vec<u8>>)
    ensures
        match r {
            Ok(b) => decode_frame(frame@) == Ok::<Seq<u8>, StatusCode>(b@),
            Err(s) => decode_frame(frame@) == Err::<Seq<u8>, StatusCode>(s.code),
        },
{
    let n = frame.len();
    if n < FRAME_TRAILER_LEN {
        return Err(Status::new(StatusCode::InvalidData, "frame too short"));
    }
    let stored = get_fixed32(frame, n - 4);
    assert(frame@.subrange(n - 4, n - 4 + 4) == frame@.subrange(n - 4, n as int));
    if !Block::verify_block(slice_subrange(frame, 0, n - 4), unmask_crc(stored)) {
        return Err(Status::with_message(StatusCode::ChecksumError, "checksum error"));
    }
    let body = slice_subrange(frame, 0, n - 5);
    assert(body@.subrange(0, body@.len() as int) =~= body@);
    match int_to_compress_type(frame[n - 5] as u32) {
        Some(CompressType::Uncompressed) => Ok(copy_range(body, 0, body.len())),
        Some(CompressType::Snappy) => match decompress(body) {
            Ok(v) => Ok(v),
            Err(e) => Err(Status::from_snap(e)),
        },
        None => Err(Status::with_message(StatusCode::InvalidData, "invalid data")),
    }
}

impl Block {
    /// An empty block.
    pub fn new(opt: Options) -> (b: Block)
        ensures
            b.block@ == Seq::<u8>::empty(),
            b.opt == opt,
    {
        Block::new_with_buffer(Vec::new(), opt)
    }

    /// A block of the given bytes.
    pub fn new_with_buffer(buffer: Vec<u8>, opt: Options) -> (b: Block)
        ensures
            b.block@ == buffer@,
            b.opt == opt,
    {
        Block { opt, block: buffer }
    }

    /// Reads the block that `location` points at in `file`: checks the
    /// frame's checksum, then undoes its compression. Returns the block and
    /// the offset just behind its frame.
    pub fn new_from_location(file: &[u8], location: &BlockHandle, opt: Options) -> (r: MyResult<
        (Block, usize),
    >)
        ensures
            match r {
                Ok((b, end)) => block_at(file@, *location) == Ok::<Seq<u8>, StatusCode>(b.block@)
                    && end == location.offset + location.size && b.opt == opt,
                Err(s) => block_at(file@, *location) == Err::<Seq<u8>, StatusCode>(s.code),
            },
    {
        let data = match read_bytes(file, location) {
            Ok(d) => d,
            Err(s) => {
                return Err(s);
            },
        };
        let len = file.len();
        match block_from_frame(data) {
            Ok(buf) => Ok((Block::new_with_buffer(buf, opt), location.offset + location.size)),
            Err(s) => Err(s),
        }
    }

    /// Whether `want` is the CRC-32C of `data`.
    pub fn verify_block(data: &[u8], want: u32) -> (ok: bool)
        ensures
            ok == (crc32c(data@) == want),
    {
        checksum(data) == want
    }

    /// Where the entries end and the restart offsets begin; 0 for a block
    /// too short for what its last four bytes announce.
    pub fn restarts_offset(&self) -> (off: usize)
        ensures
            off == restarts_offset_of(self.block@),
            off <= self.block@.len(),
    {
        let len = self.block.len();
        if len < 4 {
            return 0;
        }
        let c = get_fixed32(self.block.as_slice(), len - 4) as usize;
        assert(self.block@.subrange(len - 4, len - 4 + 4) == self.block@.subrange(
            len - 4,
            len as int,
        ));
        if c > (len - 4) / 4 {
            return 0;
        }
        len - 4 - 4 * c
    }

    /// A cursor before the first entry of the block.
    pub fn iter(&self) -> (it: BlockIter<'_>)
        ensures
            it.block@ == self.block@,
            it.state.restarts_offset == restarts_offset_of(self.block@),
            it.state.before_first(),
            block_wf(self.block@) ==> it.state.inv(self.block@),
    {
        let it = BlockIter::new(self.block.as_slice(), self.restarts_offset());
        it
    }
}

} // verus!
