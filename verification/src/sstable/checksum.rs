//! The checksum of a block's frame.

use vstd::prelude::*;

verus! {

/// CRC-32C (Castagnoli) of a byte string.
pub uninterp spec fn crc32c(data: Seq<u8>) -> u32;

/// The constant added when a checksum is masked.
pub const MASK_DELTA: u32 = 0xa282ead8;

/// A checksum as it is stored: rotated right by 15 bits, then the constant
/// added, both modulo 2^32.
pub open spec fn masked(c: u32) -> u32 {
    ((c >> 15) | (c << 17)).wrapping_add(MASK_DELTA)
}

/// The checksum that was stored as `m`.
pub open spec fn unmasked(m: u32) -> u32 {
    (m.wrapping_sub(MASK_DELTA) >> 17) | (m.wrapping_sub(MASK_DELTA) << 15)
}

/// `crc::crc32::checksum_castagnoli`: the CRC-32C of `data`.
#[verifier::external_body]
fn castagnoli(data: &[u8]) -> (c: u32)
    ensures
        c == crc32c(data@),
{
    crc::crc32::checksum_castagnoli(data)
}

/// The CRC-32C of `data`.
pub fn checksum(data: &[u8]) -> (c: u32)
    ensures
        c == crc32c(data@),
{
    castagnoli(data)
}

/// Masks a checksum for storage.
pub fn mask_crc(c: u32) -> (m: u32)
    ensures
        m == masked(c),
{
    ((c >> 15) | (c << 17)).wrapping_add(MASK_DELTA)
}

/// Undoes `mask_crc`.
pub fn unmask_crc(m: u32) -> (c: u32)
    ensures
        c == unmasked(m),
{
    let rot = m.wrapping_sub(MASK_DELTA);
    (rot >> 17) | (rot << 15)
}

/// Masking loses nothing: unmasking gives the checksum back.
pub proof fn lemma_unmask_mask(c: u32)
    ensures
        unmasked(masked(c)) == c,
{
    let r = (c >> 15) | (c << 17);
    let m = r.wrapping_add(MASK_DELTA);
    assert(m.wrapping_sub(MASK_DELTA) == r);
    assert(((((c >> 15) | (c << 17)) >> 17) | (((c >> 15) | (c << 17)) << 15)) == c)
        by (bit_vector);
}

/// Whether `want` is the checksum of `data`.
pub fn verify_checksum(data: &[u8], want: u32) -> (ok: bool)
    ensures
        ok == (crc32c(data@) == want),
{
    checksum(data) == want
}

} // verus!
