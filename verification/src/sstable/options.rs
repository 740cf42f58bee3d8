//! What a table is built and read with.

use vstd::prelude::*;

verus! {

/// How a block's payload is stored.
#[derive(Debug, Clone, Copy, PartialEq, Eq, Structural)]
pub enum CompressType {
    Uncompressed,
    Snappy,
}

/// The byte that stands for a compression type in a block's frame.
pub open spec fn compress_type_code(t: CompressType) -> u8 {
    match t {
        CompressType::Uncompressed => 0,
        CompressType::Snappy => 1,
    }
}

/// The compression type that a number stands for, if it stands for one.
pub open spec fn compress_type_of(n: int) -> Option<CompressType> {
    if n == 0 {
        Some(CompressType::Uncompressed)
    } else if n == 1 {
        Some(CompressType::Snappy)
    } else {
        None
    }
}

pub fn compress_type_to_int(t: CompressType) -> (n: u8)
    ensures
        n == compress_type_code(t),
        compress_type_of(n as int) == Some(t),
{
    match t {
        CompressType::Uncompressed => 0,
        CompressType::Snappy => 1,
    }
}

pub fn int_to_compress_type(n: u32) -> (t: Option<CompressType>)
    ensures
        t == compress_type_of(n as int),
{
    if n == 0 {
        Some(CompressType::Uncompressed)
    } else if n == 1 {
        Some(CompressType::Snappy)
    } else {
        None
    }
}

/// Options of a table.
#[derive(Debug, Clone, Copy)]
pub struct Options {
    /// A data block is closed once its estimated size exceeds this.
    pub block_size: usize,
    /// Every so many entries of a block the key is stored in full.
    pub block_restart_interval: usize,
    /// How blocks are stored.
    pub compress_type: CompressType,
    /// How many decoded blocks the cache keeps.
    pub block_cache_capacity: usize,
}

impl Default for Options {
    fn default() -> (o: Options)
        ensures
            o.block_size == 4096,
            o.block_restart_interval == 16,
            o.compress_type == CompressType::Uncompressed,
            o.block_cache_capacity == 8388608,
    {
        Options {
            block_size: 4096,
            block_restart_interval: 16,
            compress_type: CompressType::Uncompressed,
            block_cache_capacity: 8388608,
        }
    }
}

} // verus!
