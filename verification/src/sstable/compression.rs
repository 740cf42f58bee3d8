//! Snappy compression of block payloads.

use vstd::prelude::*;

verus! {

/// What Snappy's raw encoder makes of `input`, or `None` where it refuses
/// the input.
pub uninterp spec fn snappy_compressed(input: Seq<u8>) -> Option<Seq<u8>>;

/// What Snappy's raw decoder makes of `input`, or `None` where it rejects
/// the input.
pub uninterp spec fn snappy_decompressed(input: Seq<u8>) -> Option<Seq<u8>>;

/// `snap::Encoder::compress_vec` on a fresh encoder. What it returns
/// depends on the input alone, and the raw decoder turns it back into the
/// input.
#[verifier::external_body]
fn snappy_compress(input: &[u8]) -> (r: Result<Vec<u8>, snap::Error>)
    ensures
        match r {
            Ok(v) => snappy_compressed(input@) == Some(v@) && snappy_decompressed(v@) == Some(
                input@,
            ),
            Err(_) => snappy_compressed(input@) is None,
        },
{
    snap::Encoder::new().compress_vec(input)
}

/// `snap::Decoder::decompress_vec`. What it returns depends on the input
/// alone; its errors are never the `Checksum` variant, which only the
/// framed stream format raises.
#[verifier::external_body]
fn snappy_decompress(input: &[u8]) -> (r: Result<Vec<u8>, snap::Error>)
    ensures
        match r {
            Ok(v) => snappy_decompressed(input@) == Some(v@),
            Err(e) => snappy_decompressed(input@) is None
                && !crate::sstable::result::snap_error_is_checksum(e),
        },
{
    snap::Decoder::new().decompress_vec(input)
}

/// Compresses a block payload.
pub fn compress(input: &[u8]) -> (r: Result<Vec<u8>, snap::Error>)
    ensures
        match r {
            Ok(v) => snappy_compressed(input@) == Some(v@) && snappy_decompressed(v@) == Some(
                input@,
            ),
            Err(_) => snappy_compressed(input@) is None,
        },
{
    snappy_compress(input)
}

/// Decompresses a block payload.
pub fn decompress(input: &[u8]) -> (r: Result<Vec<u8>, snap::Error>)
    ensures
        match r {
            Ok(v) => snappy_decompressed(input@) == Some(v@),
            Err(e) => snappy_decompressed(input@) is None
                && !crate::sstable::result::snap_error_is_checksum(e),
        },
{
    snappy_decompress(input)
}

} // verus!
